//! Reassembly of per-chunk results that arrive in any order, and the merge of
//! the per-chunk aggregations into one sorted list.
use crate::aggregation::{
    lemma_series_order, lemma_sorted_same_elements, series_key, series_lt, series_models,
    SensorSeries, SeriesModel,
};
use crate::error::ProcessingError;
use crate::text::{chars_of, compare_chars};
use vstd::multiset::Multiset;
use vstd::prelude::*;

verus! {

/// The value last delivered for slot `i`, if any.
pub open spec fn slot_value<T>(rcv: Seq<(usize, T)>, i: nat) -> Option<T>
    decreases rcv.len(),
{
    if rcv.len() == 0 {
        None
    } else if rcv.last().0 == i {
        Some(rcv.last().1)
    } else {
        slot_value(rcv.drop_last(), i)
    }
}

/// The results in chunk order: what was delivered for each slot, or the
/// error that its task did not complete.
pub open spec fn collected<T>(rcv: Seq<(usize, T)>, n: nat) -> Seq<Result<T, ProcessingError>> {
    Seq::new(
        n,
        |i: int|
            match slot_value(rcv, i as nat) {
                Some(v) => Ok(v),
                None => Err(ProcessingError::TaskIncomplete(i as usize)),
            },
    )
}

/// Every slot is delivered at most once.
pub open spec fn delivered_once<T>(rcv: Seq<(usize, T)>) -> bool {
    forall|a: int, b: int| 0 <= a < rcv.len() && 0 <= b < rcv.len() && a != b ==> rcv[a].0 != rcv[b].0
}

/// Puts the `(index, result)` pairs that the workers delivered, in whatever
/// order they came, back into chunk order; a slot that nothing was delivered
/// for holds `TaskIncomplete`.
pub fn collect_by_index<T>(n: usize, received: Vec<(usize, T)>) -> (r: Vec<Result<T, ProcessingError>>)
    requires
        forall|j: int| 0 <= j < received@.len() ==> received@[j].0 < n,
    ensures
        r@ == collected(received@, n as nat),
{
    let ghost rcv = received@;
    let mut received = received;
    let mut slots: Vec<Option<T>> = Vec::new();
    let mut i: usize = 0;
    while i < n
        invariant
            i <= n,
            slots@.len() == i,
            forall|k: int| 0 <= k < i ==> slots@[k] is None,
        decreases n - i,
    {
        slots.push(None);
        i = i + 1;
    }
    while received.len() > 0
        invariant
            slots@.len() == n,
            received@.len() <= rcv.len(),
            received@ == rcv.take(received@.len() as int),
            forall|j: int| 0 <= j < rcv.len() ==> rcv[j].0 < n,
            forall|k: int| 0 <= k < n ==> slot_value(rcv, k as nat) == (if (#[trigger] slots@[k]) is Some {
                slots@[k]
            } else {
                slot_value(received@, k as nat)
            }),
        decreases received@.len(),
    {
        let ghost before = received@;
        let (idx, v) = received.pop().unwrap();
        proof {
            assert(received@ == before.drop_last());
            assert(rcv.take(received@.len() as int) =~= rcv.take(before.len() as int).drop_last());
        }
        if slots[idx].is_none() {
            slots.set(idx, Some(v));
        }
    }
    let mut r: Vec<Result<T, ProcessingError>> = Vec::new();
    let mut k: usize = 0;
    while k < n
        invariant
            k <= n,
            slots@.len() == n,
            r@.len() == k,
            forall|j: int| 0 <= j < k ==> r@[j] == collected(rcv, n as nat)[j],
            forall|j: int| k <= j < n ==> slot_value(rcv, j as nat) == slots@[j],
        decreases n - k,
    {
        let mut slot: Option<T> = None;
        slots.set_and_swap(k, &mut slot);
        match slot {
            Some(v) => r.push(Ok(v)),
            None => r.push(Err(ProcessingError::TaskIncomplete(k))),
        }
        k = k + 1;
    }
    assert(r@ =~= collected(rcv, n as nat));
    r
}

proof fn lemma_slot_value_delivered<T>(rcv: Seq<(usize, T)>, i: nat, v: T)
    requires
        delivered_once(rcv),
    ensures
        slot_value(rcv, i) == Some(v) <==> exists|j: int| 0 <= j < rcv.len() && rcv[j].0 as nat == i && rcv[j].1 == v,
    decreases rcv.len(),
{
    if rcv.len() > 0 {
        let s = rcv.drop_last();
        assert(delivered_once(s)) by {
            assert forall|a: int, b: int| 0 <= a < s.len() && 0 <= b < s.len() && a != b implies s[a].0 != s[b].0 by {
                assert(s[a] == rcv[a] && s[b] == rcv[b]);
            }
        }
        lemma_slot_value_delivered(s, i, v);
        let last = rcv.len() - 1;
        if rcv.last().0 as nat == i {
            if exists|j: int| 0 <= j < rcv.len() && rcv[j].0 as nat == i && rcv[j].1 == v {
                let j = choose|j: int| 0 <= j < rcv.len() && rcv[j].0 as nat == i && rcv[j].1 == v;
                assert(j == last);
            }
        } else {
            if exists|j: int| 0 <= j < rcv.len() && rcv[j].0 as nat == i && rcv[j].1 == v {
                let j = choose|j: int| 0 <= j < rcv.len() && rcv[j].0 as nat == i && rcv[j].1 == v;
                assert(j != last);
                assert(s[j] == rcv[j]);
            }
            if exists|j: int| 0 <= j < s.len() && s[j].0 as nat == i && s[j].1 == v {
                let j = choose|j: int| 0 <= j < s.len() && s[j].0 as nat == i && s[j].1 == v;
                assert(rcv[j] == s[j]);
            }
        }
    }
}

/// However the workers' deliveries are interleaved, as long as each chunk's
/// result is delivered at most once, collecting them gives the same results
/// in chunk order: the scheduling strategy cannot change the outcome.
pub proof fn lemma_collect_order_independent<T>(a: Seq<(usize, T)>, b: Seq<(usize, T)>, n: nat)
    requires
        a.to_multiset() == b.to_multiset(),
        delivered_once(a),
        delivered_once(b),
    ensures
        collected(a, n) == collected(b, n),
{
    assert forall|i: nat| i < n implies #[trigger] slot_value(a, i) == slot_value(b, i) by {
        match slot_value(a, i) {
            Some(v) => {
                lemma_slot_value_delivered(a, i, v);
                lemma_slot_value_delivered(b, i, v);
                let j = choose|j: int| 0 <= j < a.len() && a[j].0 as nat == i && a[j].1 == v;
                assert(a.contains(a[j]));
                vstd::seq_lib::to_multiset_contains(a, a[j]);
                vstd::seq_lib::to_multiset_contains(b, a[j]);
                assert(b.contains(a[j]));
            },
            None => {
                match slot_value(b, i) {
                    Some(w) => {
                        lemma_slot_value_delivered(a, i, w);
                        lemma_slot_value_delivered(b, i, w);
                        let j = choose|j: int| 0 <= j < b.len() && b[j].0 as nat == i && b[j].1 == w;
                        assert(b.contains(b[j]));
                        vstd::seq_lib::to_multiset_contains(a, b[j]);
                        vstd::seq_lib::to_multiset_contains(b, b[j]);
                        assert(a.contains(b[j]));
                    },
                    None => {},
                }
            },
        }
    }
    assert(collected(a, n) =~= collected(b, n));
}

/// No series comes after the next one.
pub open spec fn in_series_order(s: Seq<SeriesModel>) -> bool {
    forall|i: int, j: int| 0 <= i < j < s.len() ==> !series_lt(s[j], s[i])
}

/// The lists one after the other.
pub open spec fn concat_parts(ps: Seq<Vec<SensorSeries>>) -> Seq<SensorSeries>
    decreases ps.len(),
{
    if ps.len() == 0 {
        Seq::empty()
    } else {
        concat_parts(ps.drop_last()) + ps.last()@
    }
}

proof fn lemma_not_before_transitive(x: SeriesModel, y: SeriesModel, z: SeriesModel)
    requires
        !series_lt(x, y),
        !series_lt(y, z),
    ensures
        !series_lt(x, z),
{
    lemma_series_order(x, y, z);
    lemma_series_order(y, z, x);
    lemma_series_order(x, z, y);
    lemma_series_order(z, y, x);
}

/// Whether series `x` comes before series `y`.
fn series_before(x: &SensorSeries, y: &SensorSeries) -> (r: bool)
    ensures
        r == series_lt(x.model(), y.model()),
{
    let c = compare_chars(chars_of(x.device.as_str()).as_slice(), chars_of(y.device.as_str()).as_slice());
    if c != 0 {
        return c < 0;
    }
    let c = compare_chars(chars_of(x.year_month.as_str()).as_slice(), chars_of(y.year_month.as_str()).as_slice());
    if c != 0 {
        return c < 0;
    }
    compare_chars(chars_of(x.sensor.as_str()).as_slice(), chars_of(y.sensor.as_str()).as_slice()) < 0
}

/// Merges two lists in series order into one.
fn merge_two(a: Vec<SensorSeries>, b: Vec<SensorSeries>) -> (r: Vec<SensorSeries>)
    requires
        in_series_order(series_models(a@)),
        in_series_order(series_models(b@)),
    ensures
        in_series_order(series_models(r@)),
        r@.to_multiset() == a@.to_multiset().add(b@.to_multiset()),
{
    broadcast use vstd::seq_lib::group_to_multiset_ensures;
    let ghost a0 = a@;
    let ghost b0 = b@;
    let mut a = a;
    let mut b = b;
    let mut rev: Vec<SensorSeries> = Vec::new();
    while a.len() > 0 || b.len() > 0
        invariant
            a@.len() <= a0.len() && a@ == a0.take(a@.len() as int),
            b@.len() <= b0.len() && b@ == b0.take(b@.len() as int),
            in_series_order(series_models(a0)),
            in_series_order(series_models(b0)),
            rev@.to_multiset().add(a@.to_multiset()).add(b@.to_multiset()) == a0.to_multiset().add(b0.to_multiset()),
            forall|i: int, j: int| 0 <= i < j < rev@.len() ==> !series_lt(rev@[i].model(), rev@[j].model()),
            forall|i: int, k: int| 0 <= i < rev@.len() && 0 <= k < a@.len() ==> !series_lt(rev@[i].model(), a@[k].model()),
            forall|i: int, k: int| 0 <= i < rev@.len() && 0 <= k < b@.len() ==> !series_lt(rev@[i].model(), b@[k].model()),
        decreases a@.len() + b@.len(),
    {
        let take_a = if a.len() == 0 {
            false
        } else if b.len() == 0 {
            true
        } else {
            !series_before(&a[a.len() - 1], &b[b.len() - 1])
        };
        let ghost a1 = a@;
        let ghost b1 = b@;
        let ghost r1 = rev@;
        let x = if take_a {
            a.pop().unwrap()
        } else {
            b.pop().unwrap()
        };
        proof {
            if take_a {
                assert(a1 == a@.push(x));
                assert(a@ =~= a0.take(a@.len() as int));
                assert forall|k: int| 0 <= k < a@.len() implies !series_lt(x.model(), a@[k].model()) by {
                    assert(series_models(a0)[k] == a@[k].model());
                    assert(series_models(a0)[a@.len() as int] == x.model());
                }
                assert forall|k: int| 0 <= k < b@.len() implies !series_lt(x.model(), b@[k].model()) by {
                    let bl = b@.len() - 1;
                    assert(series_models(b0)[k] == b@[k].model());
                    assert(series_models(b0)[bl] == b@[bl].model());
                    if k < bl {
                        lemma_not_before_transitive(x.model(), b@[bl].model(), b@[k].model());
                    }
                    lemma_series_order(x.model(), x.model(), x.model());
                }
            } else {
                assert(b1 == b@.push(x));
                assert(b@ =~= b0.take(b@.len() as int));
                assert forall|k: int| 0 <= k < b@.len() implies !series_lt(x.model(), b@[k].model()) by {
                    assert(series_models(b0)[k] == b@[k].model());
                    assert(series_models(b0)[b@.len() as int] == x.model());
                }
                assert forall|k: int| 0 <= k < a@.len() implies !series_lt(x.model(), a@[k].model()) by {
                    let al = a@.len() - 1;
                    assert(series_models(a0)[k] == a@[k].model());
                    assert(series_models(a0)[al] == a@[al].model());
                    lemma_series_order(x.model(), a@[al].model(), x.model());
                    if k < al {
                        lemma_not_before_transitive(x.model(), a@[al].model(), a@[k].model());
                    }
                }
            }
        }
        rev.push(x);
        proof {
            broadcast use vstd::multiset::group_multiset_axioms;
            assert(rev@ == r1.push(x));
            vstd::seq_lib::to_multiset_build(r1, x);
            assert(rev@.to_multiset() =~= r1.to_multiset().insert(x));
            if take_a {
                vstd::seq_lib::to_multiset_build(a@, x);
                assert(a1.to_multiset() =~= a@.to_multiset().insert(x));
                assert(b1 == b@);
            } else {
                vstd::seq_lib::to_multiset_build(b@, x);
                assert(b1.to_multiset() =~= b@.to_multiset().insert(x));
                assert(a1 == a@);
            }
            assert(rev@.to_multiset().add(a@.to_multiset()).add(b@.to_multiset()) =~= r1.to_multiset().add(
                a1.to_multiset(),
            ).add(b1.to_multiset()));
            assert forall|i: int, k: int| 0 <= i < rev@.len() && 0 <= k < a@.len() implies !series_lt(rev@[i].model(), a@[k].model()) by {
                if i < r1.len() {
                    if take_a {
                        assert(!series_lt(r1[i].model(), a1[k].model()));
                    } else {
                        assert(a1[k] == a@[k]);
                    }
                }
            }
            assert forall|i: int, k: int| 0 <= i < rev@.len() && 0 <= k < b@.len() implies !series_lt(rev@[i].model(), b@[k].model()) by {
                if i < r1.len() {
                    if !take_a {
                        assert(!series_lt(r1[i].model(), b1[k].model()));
                    } else {
                        assert(b1[k] == b@[k]);
                    }
                }
            }
            assert forall|i: int, j: int| 0 <= i < j < rev@.len() implies !series_lt(rev@[i].model(), rev@[j].model()) by {
                if j == r1.len() {
                    if take_a {
                        assert(!series_lt(r1[i].model(), a1[a1.len() - 1].model()));
                    } else {
                        assert(!series_lt(r1[i].model(), b1[b1.len() - 1].model()));
                    }
                }
            }
        }
    }
    let ghost rv = rev@;
    let mut r: Vec<SensorSeries> = Vec::new();
    while rev.len() > 0
        invariant
            rev@ == rv.take(rev@.len() as int),
            rev@.len() <= rv.len(),
            r@ == rv.skip(rev@.len() as int).reverse(),
        decreases rev@.len(),
    {
        let ghost before = rev@;
        let x = rev.pop().unwrap();
        r.push(x);
        assert(rev@ =~= rv.take(rev@.len() as int));
        assert(rv.skip(rev@.len() as int) =~= seq![x] + rv.skip(before.len() as int));
        assert(r@ =~= rv.skip(rev@.len() as int).reverse());
    }
    proof {
        assert(rv.skip(0) =~= rv);
        rv.lemma_reverse_to_multiset();
        assert(a@.len() == 0 && b@.len() == 0);
        assert(a@.to_multiset() =~= Multiset::empty());
        assert(b@.to_multiset() =~= Multiset::empty());
        assert forall|i: int, j: int| 0 <= i < j < r@.len() implies !series_lt(series_models(r@)[j], series_models(r@)[i]) by {
            let n = rv.len();
            assert(r@[i] == rv[n - 1 - i]);
            assert(r@[j] == rv[n - 1 - j]);
        }
    }
    r
}

/// Merges per-chunk aggregation lists, each in series order, into one list in
/// series order holding exactly their elements.
pub fn merge_results(parts: Vec<Vec<SensorSeries>>) -> (r: Vec<SensorSeries>)
    requires
        forall|p: int| 0 <= p < parts@.len() ==> in_series_order(series_models(#[trigger] parts@[p]@)),
    ensures
        in_series_order(series_models(r@)),
        r@.to_multiset() == concat_parts(parts@).to_multiset(),
{
    broadcast use vstd::seq_lib::group_to_multiset_ensures;
    let ghost all_parts = parts@;
    let mut parts = parts;
    let mut acc: Vec<SensorSeries> = Vec::new();
    assert(series_models(acc@) =~= Seq::<SeriesModel>::empty());
    while parts.len() > 0
        invariant
            parts@.len() <= all_parts.len(),
            parts@ == all_parts.take(parts@.len() as int),
            forall|p: int| 0 <= p < all_parts.len() ==> in_series_order(series_models(#[trigger] all_parts[p]@)),
            in_series_order(series_models(acc@)),
            acc@.to_multiset().add(concat_parts(parts@).to_multiset()) == concat_parts(all_parts).to_multiset(),
        decreases parts@.len(),
    {
        let ghost before = parts@;
        let part = parts.pop().unwrap();
        proof {
            assert(parts@ =~= all_parts.take(parts@.len() as int));
            assert(before.drop_last() == parts@);
            vstd::seq_lib::lemma_multiset_commutative(concat_parts(parts@), part@);
            assert(part == all_parts[parts@.len() as int]);
        }
        let ghost acc0 = acc@;
        acc = merge_two(acc, part);
        proof {
            assert(acc@.to_multiset().add(concat_parts(parts@).to_multiset()) =~= acc0.to_multiset().add(concat_parts(before).to_multiset()));
        }
    }
    assert(concat_parts(parts@).to_multiset() =~= Multiset::empty());
    assert(acc@.to_multiset().add(Multiset::empty()) =~= acc@.to_multiset());
    acc
}

/// No two series of the list share a device, month and sensor.
pub open spec fn distinct_keys(s: Seq<SeriesModel>) -> bool {
    forall|i: int, j: int| 0 <= i < s.len() && 0 <= j < s.len() && i != j ==> series_key(s[i]) != series_key(s[j])
}

proof fn lemma_strictly_sorted(s: Seq<SeriesModel>)
    requires
        in_series_order(s),
        distinct_keys(s),
    ensures
        forall|i: int, j: int| 0 <= i < j < s.len() ==> series_lt(s[i], s[j]),
{
    assert forall|i: int, j: int| 0 <= i < j < s.len() implies series_lt(s[i], s[j]) by {
        lemma_series_order(s[i], s[j], s[i]);
    }
}

/// Two merged lists in series order with the same elements, in which no two
/// series share a device, month and sensor, are the same list: the merged
/// output depends only on what the chunks produced, not on the order in
/// which their lists were merged.
pub proof fn lemma_merge_determined(x: Seq<SensorSeries>, y: Seq<SensorSeries>)
    requires
        in_series_order(series_models(x)),
        in_series_order(series_models(y)),
        distinct_keys(series_models(x)),
        distinct_keys(series_models(y)),
        x.to_multiset() == y.to_multiset(),
    ensures
        series_models(x) == series_models(y),
{
    let mx = series_models(x);
    let my = series_models(y);
    lemma_strictly_sorted(mx);
    lemma_strictly_sorted(my);
    assert forall|i: int| 0 <= i < mx.len() implies my.contains(mx[i]) by {
        vstd::seq_lib::to_multiset_contains(x, x[i]);
        vstd::seq_lib::to_multiset_contains(y, x[i]);
        assert(x.contains(x[i]));
        let j = choose|j: int| 0 <= j < y.len() && y[j] == x[i];
        assert(my[j] == mx[i]);
    }
    assert forall|j: int| 0 <= j < my.len() implies mx.contains(my[j]) by {
        vstd::seq_lib::to_multiset_contains(x, y[j]);
        vstd::seq_lib::to_multiset_contains(y, y[j]);
        assert(y.contains(y[j]));
        let i = choose|i: int| 0 <= i < x.len() && x[i] == y[j];
        assert(mx[i] == my[j]);
    }
    lemma_sorted_same_elements(mx, my);
}

} // verus!
