//! Longest-processing-time partitioning of whole devices across workers.
use crate::device_hash::{add_line, group_lines, line_device, unique_devices, DeviceIndex, IndexModel};
use crate::text::text_lines;
use crate::text::{chars_of, string_of};
use crate::types::{string_views, CsvChunk, DeviceEntry};
use vstd::prelude::*;

verus! {

/// Number of lines of the device at position `p`.
pub open spec fn count_of(es: IndexModel, p: int) -> nat {
    es[p].1.len()
}

/// Device `a` is placed before device `b`: it has more lines, or as many and
/// was seen first.
pub open spec fn lpt_before(es: IndexModel, a: int, b: int) -> bool {
    count_of(es, a) > count_of(es, b) || (count_of(es, a) == count_of(es, b) && a < b)
}

/// `ord` lists every device position once, by line count descending, ties in
/// order of first appearance.
pub open spec fn is_lpt_order(es: IndexModel, ord: Seq<usize>) -> bool {
    &&& ord.len() == es.len()
    &&& forall|i: int| 0 <= i < ord.len() ==> ord[i] < es.len()
    &&& forall|i: int, j: int| 0 <= i < j < ord.len() ==> lpt_before(es, ord[i] as int, ord[j] as int)
    &&& forall|x: usize| x < es.len() ==> #[trigger] ord.contains(x)
}

/// A worker's share while devices are being assigned: its device ids and lines.
pub type ShareModel = (Seq<Seq<char>>, Seq<Seq<char>>);

/// The lowest index among the first `n` loads that holds their minimum.
pub open spec fn argmin_upto(loads: Seq<nat>, n: nat) -> nat
    decreases n,
{
    if n <= 1 {
        0
    } else {
        let j = argmin_upto(loads, (n - 1) as nat);
        if loads[n - 1] < loads[j as int] {
            (n - 1) as nat
        } else {
            j
        }
    }
}

/// The loads of the shares: their numbers of lines.
pub open spec fn share_loads(sh: Seq<ShareModel>) -> Seq<nat> {
    sh.map_values(|s: ShareModel| s.1.len())
}

/// The least loaded worker, the lowest index on ties.
pub open spec fn least_loaded(sh: Seq<ShareModel>) -> nat {
    argmin_upto(share_loads(sh), sh.len())
}

/// The shares of `w` workers after the first `k` devices of `ord` were each
/// given to the least loaded worker.
pub open spec fn shares_after(es: IndexModel, ord: Seq<usize>, w: nat, k: nat) -> Seq<ShareModel>
    decreases k,
{
    if k == 0 {
        Seq::new(w, |j: int| (Seq::<Seq<char>>::empty(), Seq::<Seq<char>>::empty()))
    } else {
        let sh = shares_after(es, ord, w, (k - 1) as nat);
        let j = least_loaded(sh) as int;
        let e = es[ord[k - 1] as int];
        sh.update(j, (sh[j].0.push(e.0), sh[j].1 + e.1))
    }
}

/// The shares that hold at least one line, in worker order.
pub open spec fn nonempty_shares(sh: Seq<ShareModel>) -> Seq<ShareModel>
    decreases sh.len(),
{
    if sh.len() == 0 {
        Seq::empty()
    } else {
        let r = nonempty_shares(sh.drop_last());
        if sh.last().1.len() > 0 {
            r.push(sh.last())
        } else {
            r
        }
    }
}

/// The chunks of the partition: with no worker there are none.
pub open spec fn lpt_shares(es: IndexModel, ord: Seq<usize>, w: nat) -> Seq<ShareModel> {
    if w == 0 {
        Seq::empty()
    } else {
        nonempty_shares(shares_after(es, ord, w, es.len()))
    }
}

/// Lines joined by `\n`.
pub open spec fn join_lines(ls: Seq<Seq<char>>) -> Seq<char>
    decreases ls.len(),
{
    if ls.len() == 0 {
        Seq::empty()
    } else if ls.len() == 1 {
        ls[0]
    } else {
        join_lines(ls.drop_last()).push('\n') + ls.last()
    }
}

/// Total number of lines in an index.
pub open spec fn total_lines(es: IndexModel) -> nat
    decreases es.len(),
{
    if es.len() == 0 {
        0
    } else {
        total_lines(es.drop_last()) + es.last().1.len()
    }
}

/// A chunk holds exactly a share, under the given header.
pub open spec fn chunk_matches(c: CsvChunk, s: ShareModel, header: Seq<char>) -> bool {
    &&& string_views(c.device_ids@) == s.0
    &&& c.data@ == join_lines(s.1)
    &&& c.line_count == s.1.len()
    &&& c.header@ == header
}

/// Appends the characters of `s` to `buf`.
fn push_all(buf: &mut Vec<char>, s: &[char])
    ensures
        final(buf)@ == old(buf)@ + s@,
{
    let mut i: usize = 0;
    while i < s.len()
        invariant
            i <= s@.len(),
            buf@ == old(buf)@ + s@.take(i as int),
        decreases s.len() - i,
    {
        buf.push(s[i]);
        assert(s@.take(i + 1) == s@.take(i as int).push(s@[i as int]));
        i = i + 1;
    }
    assert(s@.take(s@.len() as int) == s@);
}

/// The device positions of `index` in the order in which they are assigned.
fn lpt_order(index: &DeviceIndex) -> (ord: Vec<usize>)
    requires
        index.wf(),
    ensures
        is_lpt_order(index@, ord@),
{
    let entries = index.entries();
    let ghost es = index@;
    let n = entries.len();
    let mut ord: Vec<usize> = Vec::new();
    let mut i: usize = 0;
    while i < n
        invariant
            n == entries@.len() == es.len(),
            entries@.map_values(|e: DeviceEntry| e.model()) == es,
            i <= n,
            ord@.len() == i,
            forall|a: int| 0 <= a < ord@.len() ==> ord@[a] < i,
            forall|a: int, b: int| 0 <= a < b < ord@.len() ==> lpt_before(es, ord@[a] as int, ord@[b] as int),
            forall|x: usize| x < i ==> #[trigger] ord@.contains(x),
        decreases n - i,
    {
        let c = entries[i].lines.len();
        assert(count_of(es, i as int) == c);
        let mut pos: usize = 0;
        while pos < ord.len() && entries[ord[pos]].lines.len() >= c
            invariant
                n == entries@.len() == es.len(),
                entries@.map_values(|e: DeviceEntry| e.model()) == es,
                i < n,
                c == count_of(es, i as int),
                ord@.len() == i,
                pos <= ord@.len(),
                forall|a: int| 0 <= a < ord@.len() ==> ord@[a] < i,
                forall|a: int| 0 <= a < pos ==> count_of(es, ord@[a] as int) >= c,
            decreases ord.len() - pos,
        {
            assert(count_of(es, ord@[pos as int] as int) == entries@[ord@[pos as int] as int].lines@.len());
            pos = pos + 1;
        }
        proof {
            if pos < ord@.len() {
                assert(count_of(es, ord@[pos as int] as int) == entries@[ord@[pos as int] as int].lines@.len());
                assert forall|b: int| pos <= b < ord@.len() implies count_of(es, ord@[b] as int) < c by {
                    if b > pos {
                        assert(lpt_before(es, ord@[pos as int] as int, ord@[b] as int));
                    }
                }
            }
        }
        let ghost old_ord = ord@;
        ord.insert(pos, i);
        proof {
            assert(ord@ == old_ord.insert(pos as int, i));
            assert forall|x: usize| x < i + 1 implies #[trigger] ord@.contains(x) by {
                if x == i {
                    assert(ord@[pos as int] == x);
                } else {
                    assert(old_ord.contains(x));
                    let a = choose|a: int| 0 <= a < old_ord.len() && old_ord[a] == x;
                    if a < pos {
                        assert(ord@[a] == x);
                    } else {
                        assert(ord@[a + 1] == x);
                    }
                }
            }
        }
        i = i + 1;
    }
    ord
}

/// Sum of a sequence of naturals.
pub open spec fn sum_nat(l: Seq<nat>) -> nat
    decreases l.len(),
{
    if l.len() == 0 {
        0
    } else {
        sum_nat(l.drop_last()) + l.last()
    }
}

/// Total number of lines of the devices at the positions `ord`.
pub open spec fn sum_counts(es: IndexModel, ord: Seq<usize>) -> nat
    decreases ord.len(),
{
    if ord.len() == 0 {
        0
    } else {
        sum_counts(es, ord.drop_last()) + count_of(es, ord.last() as int)
    }
}

/// Every chunk of `cs` holds the share at the same place of `sh`.
pub open spec fn chunks_match(cs: Seq<CsvChunk>, sh: Seq<ShareModel>, header: Seq<char>) -> bool {
    &&& cs.len() == sh.len()
    &&& forall|i: int| 0 <= i < cs.len() ==> chunk_matches(#[trigger] cs[i], sh[i], header)
}

proof fn lemma_join_push(ls: Seq<Seq<char>>, l: Seq<char>)
    ensures
        join_lines(ls.push(l)) == if ls.len() == 0 {
            l
        } else {
            join_lines(ls).push('\n') + l
        },
{
    assert(ls.push(l).drop_last() == ls);
}

proof fn lemma_sum_update(l: Seq<nat>, j: int, v: nat)
    requires
        0 <= j < l.len(),
    ensures
        sum_nat(l.update(j, v)) + l[j] == sum_nat(l) + v,
    decreases l.len(),
{
    if j < l.len() - 1 {
        assert(l.update(j, v).drop_last() == l.drop_last().update(j, v));
        lemma_sum_update(l.drop_last(), j, v);
    } else {
        assert(l.update(j, v).drop_last() == l.drop_last());
    }
}

proof fn lemma_elem_le_sum(l: Seq<nat>, j: int)
    requires
        0 <= j < l.len(),
    ensures
        l[j] <= sum_nat(l),
    decreases l.len(),
{
    if j < l.len() - 1 {
        lemma_elem_le_sum(l.drop_last(), j);
    }
}

proof fn lemma_sum_zeros(w: nat)
    ensures
        sum_nat(Seq::new(w, |j: int| 0nat)) == 0,
    decreases w,
{
    if w > 0 {
        assert(Seq::new(w, |j: int| 0nat).drop_last() == Seq::new((w - 1) as nat, |j: int| 0nat));
        lemma_sum_zeros((w - 1) as nat);
    }
}

proof fn lemma_sum_counts_remove(es: IndexModel, ord: Seq<usize>, p: int)
    requires
        0 <= p < ord.len(),
    ensures
        sum_counts(es, ord) == sum_counts(es, ord.remove(p)) + count_of(es, ord[p] as int),
    decreases ord.len(),
{
    if p < ord.len() - 1 {
        assert(ord.remove(p).drop_last() == ord.drop_last().remove(p));
        assert(ord.remove(p).last() == ord.last());
        lemma_sum_counts_remove(es, ord.drop_last(), p);
    } else {
        assert(ord.remove(p) == ord.drop_last());
    }
}

proof fn lemma_sum_counts_prefix(es: IndexModel, ord: Seq<usize>)
    requires
        es.len() > 0,
        forall|i: int| 0 <= i < ord.len() ==> ord[i] < es.len() - 1,
    ensures
        sum_counts(es, ord) == sum_counts(es.drop_last(), ord),
    decreases ord.len(),
{
    if ord.len() > 0 {
        lemma_sum_counts_prefix(es, ord.drop_last());
    }
}

/// Over distinct positions the lines add up to at most the total, and to the
/// total when every position is listed.
pub proof fn lemma_sum_counts_bound(es: IndexModel, ord: Seq<usize>)
    requires
        es.len() <= usize::MAX,
        ord.no_duplicates(),
        forall|i: int| 0 <= i < ord.len() ==> ord[i] < es.len(),
    ensures
        sum_counts(es, ord) <= total_lines(es),
        (forall|x: usize| x < es.len() ==> #[trigger] ord.contains(x)) ==> sum_counts(es, ord)
            == total_lines(es),
    decreases es.len(),
{
    if es.len() == 0 {
        if ord.len() > 0 {
            assert(ord[0] < 0);
        }
    } else {
        let m = (es.len() - 1) as usize;
        if ord.contains(m) {
            let p = choose|p: int| 0 <= p < ord.len() && ord[p] == m;
            let rest = ord.remove(p);
            lemma_sum_counts_remove(es, ord, p);
            assert forall|i: int| 0 <= i < rest.len() implies rest[i] < es.len() - 1 by {
                if i < p {
                    assert(rest[i] == ord[i]);
                } else {
                    assert(rest[i] == ord[i + 1]);
                }
            }
            assert(rest.no_duplicates()) by {
                assert forall|i: int, j: int| 0 <= i < rest.len() && 0 <= j < rest.len() && i != j
                    implies rest[i] != rest[j] by {
                    let oi = if i < p { i } else { i + 1 };
                    let oj = if j < p { j } else { j + 1 };
                    assert(rest[i] == ord[oi] && rest[j] == ord[oj]);
                }
            }
            lemma_sum_counts_prefix(es, rest);
            lemma_sum_counts_bound(es.drop_last(), rest);
            if forall|x: usize| x < es.len() ==> #[trigger] ord.contains(x) {
                assert forall|x: usize| x < es.drop_last().len() implies #[trigger] rest.contains(x) by {
                    assert(ord.contains(x));
                    let a = choose|a: int| 0 <= a < ord.len() && ord[a] == x;
                    assert(a != p);
                    if a < p {
                        assert(rest[a] == x);
                    } else {
                        assert(rest[a - 1] == x);
                    }
                }
            }
        } else {
            assert forall|i: int| 0 <= i < ord.len() implies ord[i] < es.len() - 1 by {
                if ord[i] == m {
                    assert(ord.contains(m));
                }
            }
            lemma_sum_counts_prefix(es, ord);
            lemma_sum_counts_bound(es.drop_last(), ord);
        }
    }
}

/// Splits the devices of `index` among `num_workers` workers by the
/// longest-processing-time rule and returns the shares that hold a line, each
/// as a chunk under `header`.
pub fn partition_by_device(index: &DeviceIndex, num_workers: usize, header: &str) -> (r: Vec<CsvChunk>)
    requires
        index.wf(),
        total_lines(index@) <= usize::MAX,
    ensures
        exists|ord: Seq<usize>|
            is_lpt_order(index@, ord) && chunks_match(r@, lpt_shares(index@, ord, num_workers as nat), header@),
{
    let ord = lpt_order(index);
    let ghost es = index@;
    let w = num_workers;
    if w == 0 {
        let r: Vec<CsvChunk> = Vec::new();
        assert(chunks_match(r@, lpt_shares(es, ord@, 0), header@));
        return r;
    }
    proof {
        index.lemma_valid();
        assert(ord@.no_duplicates()) by {
            assert forall|i: int, j: int| 0 <= i < ord@.len() && 0 <= j < ord@.len() && i != j
                implies ord@[i] != ord@[j] by {
                if i < j {
                    assert(lpt_before(es, ord@[i] as int, ord@[j] as int));
                } else {
                    assert(lpt_before(es, ord@[j] as int, ord@[i] as int));
                }
            }
        }
    }
    let entries = index.entries();
    let n = entries.len();
    let mut ids: Vec<Vec<String>> = Vec::new();
    let mut datas: Vec<Vec<char>> = Vec::new();
    let mut loads: Vec<usize> = Vec::new();
    let mut j0: usize = 0;
    while j0 < w
        invariant
            j0 <= w,
            ids@.len() == j0 && datas@.len() == j0 && loads@.len() == j0,
            forall|j: int| 0 <= j < j0 ==> (#[trigger] ids@[j])@.len() == 0,
            forall|j: int| 0 <= j < j0 ==> (#[trigger] datas@[j])@.len() == 0,
            forall|j: int| 0 <= j < j0 ==> #[trigger] loads@[j] == 0,
        decreases w - j0,
    {
        let ghost ids0 = ids@;
        let ghost datas0 = datas@;
        let ghost loads0 = loads@;
        let e_ids: Vec<String> = Vec::new();
        let e_data: Vec<char> = Vec::new();
        ids.push(e_ids);
        datas.push(e_data);
        loads.push(0);
        assert(ids@ == ids0.push(e_ids));
        assert(datas@ == datas0.push(e_data));
        assert(loads@ == loads0.push(0));
        assert(e_ids@.len() == 0 && e_data@.len() == 0);
        assert forall|j: int| 0 <= j < j0 + 1 implies ids@[j]@.len() == 0 && datas@[j]@.len() == 0
            && loads@[j] == 0 by {
            if j < j0 {
                assert(ids@[j] == ids0[j] && datas@[j] == datas0[j] && loads@[j] == loads0[j]);
            }
        }
        j0 = j0 + 1;
    }
    let ghost mut sh: Seq<ShareModel> = shares_after(es, ord@, w as nat, 0);
    let mut assigned: usize = 0;
    proof {
        assert(share_loads(sh) =~= Seq::new(w as nat, |j: int| 0nat));
        lemma_sum_zeros(w as nat);
        assert(ord@.take(0) =~= Seq::<usize>::empty());
        assert forall|j: int| 0 <= j < w implies string_views(ids@[j]@) == sh[j].0 by {
            assert(ids@[j]@.len() == 0);
            assert(sh[j].0.len() == 0);
            assert(string_views(ids@[j]@) =~= sh[j].0);
        }
        assert forall|j: int| 0 <= j < w implies datas@[j]@ == join_lines(sh[j].1) by {
            assert(datas@[j]@.len() == 0);
            assert(sh[j].1.len() == 0);
            assert(datas@[j]@ =~= join_lines(sh[j].1));
        }
    }
    let mut k: usize = 0;
    while k < n
        invariant
            n == entries@.len() == es.len(),
            entries@.map_values(|e: DeviceEntry| e.model()) == es,
            is_lpt_order(es, ord@),
            ord@.no_duplicates(),
            total_lines(es) <= usize::MAX,
            forall|p: int| 0 <= p < es.len() ==> es[p].1.len() > 0,
            w > 0,
            k <= n,
            ids@.len() == w && datas@.len() == w && loads@.len() == w && sh.len() == w,
            sh == shares_after(es, ord@, w as nat, k as nat),
            forall|j: int| 0 <= j < w ==> string_views(ids@[j]@) == sh[j].0,
            forall|j: int| 0 <= j < w ==> datas@[j]@ == join_lines(sh[j].1),
            forall|j: int| 0 <= j < w ==> loads@[j] == sh[j].1.len(),
            assigned == sum_counts(es, ord@.take(k as int)),
            sum_nat(share_loads(sh)) == assigned,
        decreases n - k,
    {
        let mut best: usize = 0;
        let mut j: usize = 1;
        while j < w
            invariant
                1 <= j <= w,
                best < j,
                loads@.len() == w && sh.len() == w,
                forall|j: int| 0 <= j < w ==> loads@[j] == sh[j].1.len(),
                best == argmin_upto(share_loads(sh), j as nat),
            decreases w - j,
        {
            if loads[j] < loads[best] {
                best = j;
            }
            j = j + 1;
        }
        let p = ord[k];
        let e = &entries[p];
        let ghost em = es[p as int];
        assert(e.model() == em);
        proof {
            assert(ord@.take(k + 1).drop_last() == ord@.take(k as int));
            let pre = ord@.take(k + 1);
            assert forall|i: int| 0 <= i < pre.len() implies pre[i] < es.len() by {}
            assert(pre.no_duplicates()) by {
                assert forall|a: int, b: int| 0 <= a < pre.len() && 0 <= b < pre.len() && a != b
                    implies pre[a] != pre[b] by {
                    assert(pre[a] == ord@[a] && pre[b] == ord@[b]);
                }
            }
            lemma_sum_counts_bound(es, pre);
            lemma_elem_le_sum(share_loads(sh), best as int);
        }
        ids[best].push(e.device_id.clone());
        let mut t: usize = 0;
        while t < e.lines.len()
            invariant
                t <= e.lines@.len(),
                e.model() == em,
                ids@.len() == w && datas@.len() == w && loads@.len() == w && sh.len() == w,
                best < w,
                loads@[best as int] == sh[best as int].1.len() + t,
                sh[best as int].1.len() + em.1.len() <= usize::MAX,
                datas@[best as int]@ == join_lines(sh[best as int].1 + em.1.take(t as int)),
                forall|j: int| 0 <= j < w && j != best ==> datas@[j]@ == join_lines(sh[j].1),
                forall|j: int| 0 <= j < w && j != best ==> loads@[j] == sh[j].1.len(),
            decreases e.lines.len() - t,
        {
            let lc = chars_of(e.lines[t].as_str());
            proof {
                assert(em.1[t as int] == e.lines@[t as int]@);
                assert(sh[best as int].1 + em.1.take(t + 1) == (sh[best as int].1 + em.1.take(t as int)).push(lc@));
                lemma_join_push(sh[best as int].1 + em.1.take(t as int), lc@);
            }
            if loads[best] > 0 {
                datas[best].push('\n');
            }
            push_all(&mut datas[best], lc.as_slice());
            loads[best] = loads[best] + 1;
            t = t + 1;
        }
        proof {
            assert(em.1.take(em.1.len() as int) == em.1);
            let old_sh = sh;
            sh = sh.update(best as int, (sh[best as int].0.push(em.0), sh[best as int].1 + em.1));
            assert(string_views(ids@[best as int]@) =~= sh[best as int].0);
            assert(share_loads(sh) =~= share_loads(old_sh).update(best as int, (old_sh[best as int].1.len() + em.1.len()) as nat));
            lemma_sum_update(share_loads(old_sh), best as int, (old_sh[best as int].1.len() + em.1.len()) as nat);
        }
        assigned = assigned + e.lines.len();
        k = k + 1;
    }
    assert(ord@.take(n as int) == ord@);
    let ghost all = sh;
    let mut r: Vec<CsvChunk> = Vec::new();
    let mut j: usize = 0;
    while j < w
        invariant
            j <= w,
            ids@.len() == w && datas@.len() == w && loads@.len() == w && all.len() == w,
            forall|i: int| j <= i < w ==> string_views(ids@[i]@) == all[i].0,
            forall|i: int| j <= i < w ==> datas@[i]@ == join_lines(all[i].1),
            forall|i: int| 0 <= i < w ==> loads@[i] == all[i].1.len(),
            chunks_match(r@, nonempty_shares(all.take(j as int)), header@),
        decreases w - j,
    {
        proof {
            assert(all.take(j + 1).drop_last() == all.take(j as int));
            assert(all.take(j + 1).last() == all[j as int]);
        }
        if loads[j] > 0 {
            let mut my_ids: Vec<String> = Vec::new();
            ids.set_and_swap(j, &mut my_ids);
            let mut my_data: Vec<char> = Vec::new();
            datas.set_and_swap(j, &mut my_data);
            let c = CsvChunk {
                data: string_of(my_data.as_slice()),
                header: String::from_str(header),
                device_ids: my_ids,
                line_count: loads[j],
            };
            let ghost r0 = r@;
            r.push(c);
            proof {
                assert(r@ == r0.push(c));
                assert(chunk_matches(c, all[j as int], header@));
                let ne = nonempty_shares(all.take(j + 1));
                assert forall|i: int| 0 <= i < r@.len() implies chunk_matches(#[trigger] r@[i], ne[i], header@) by {
                    if i < r0.len() {
                        assert(r@[i] == r0[i]);
                    }
                }
            }
        }
        j = j + 1;
    }
    assert(all.take(w as int) == all);
    r
}

/// Number of lines that have a device.
pub open spec fn valid_line_count(ls: Seq<Seq<char>>, d: char, idx: nat) -> nat
    decreases ls.len(),
{
    if ls.len() == 0 {
        0
    } else {
        valid_line_count(ls.drop_last(), d, idx) + if line_device(ls.last(), d, idx) is Some {
            1nat
        } else {
            0nat
        }
    }
}

/// Total of the line counts of a list of chunks.
pub open spec fn chunk_line_total(cs: Seq<CsvChunk>) -> nat
    decreases cs.len(),
{
    if cs.len() == 0 {
        0
    } else {
        chunk_line_total(cs.drop_last()) + cs.last().line_count as nat
    }
}

proof fn lemma_total_update(es: IndexModel, p: int, e: (Seq<char>, Seq<Seq<char>>))
    requires
        0 <= p < es.len(),
    ensures
        total_lines(es.update(p, e)) + es[p].1.len() == total_lines(es) + e.1.len(),
    decreases es.len(),
{
    if p < es.len() - 1 {
        assert(es.update(p, e).drop_last() == es.drop_last().update(p, e));
        lemma_total_update(es.drop_last(), p, e);
    } else {
        assert(es.update(p, e).drop_last() == es.drop_last());
    }
}

proof fn lemma_total_grouped(ls: Seq<Seq<char>>, d: char, idx: nat)
    ensures
        total_lines(group_lines(ls, d, idx)) == valid_line_count(ls, d, idx),
    decreases ls.len(),
{
    if ls.len() > 0 {
        lemma_total_grouped(ls.drop_last(), d, idx);
        let g = group_lines(ls.drop_last(), d, idx);
        match line_device(ls.last(), d, idx) {
            Some(dev) => {
                if exists|p: int| 0 <= p < g.len() && g[p].0 == dev {
                    let p = crate::device_hash::bucket_of(g, dev);
                    lemma_total_update(g, p, (dev, g[p].1.push(ls.last())));
                    assert(add_line(g, dev, ls.last()) == g.update(p, (dev, g[p].1.push(ls.last()))));
                    assert(group_lines(ls, d, idx) == add_line(g, dev, ls.last()));
                } else {
                    let n = add_line(g, dev, ls.last());
                    assert(n == g.push((dev, seq![ls.last()])));
                    assert(n.drop_last() == g);
                    assert(total_lines(n) == total_lines(g) + 1);
                    assert(group_lines(ls, d, idx) == n);
                }
            },
            None => {},
        }
    }
}

proof fn lemma_shares_sum(es: IndexModel, ord: Seq<usize>, w: nat, k: nat)
    requires
        w > 0,
        k <= ord.len(),
        forall|i: int| 0 <= i < ord.len() ==> ord[i] < es.len(),
    ensures
        shares_after(es, ord, w, k).len() == w,
        sum_nat(share_loads(shares_after(es, ord, w, k))) == sum_counts(es, ord.take(k as int)),
    decreases k,
{
    if k == 0 {
        let sh = shares_after(es, ord, w, 0);
        assert(share_loads(sh) =~= Seq::new(w, |j: int| 0nat));
        lemma_sum_zeros(w);
        assert(ord.take(0) =~= Seq::<usize>::empty());
    } else {
        lemma_shares_sum(es, ord, w, (k - 1) as nat);
        let sh = shares_after(es, ord, w, (k - 1) as nat);
        let j = least_loaded(sh) as int;
        lemma_argmin_bound(share_loads(sh), sh.len());
        let e = es[ord[k - 1] as int];
        let nsh = sh.update(j, (sh[j].0.push(e.0), sh[j].1 + e.1));
        assert(share_loads(nsh) =~= share_loads(sh).update(j, (sh[j].1.len() + e.1.len()) as nat));
        lemma_sum_update(share_loads(sh), j, (sh[j].1.len() + e.1.len()) as nat);
        assert(ord.take(k as int).drop_last() == ord.take(k - 1));
    }
}

proof fn lemma_argmin_bound(loads: Seq<nat>, n: nat)
    requires
        n >= 1,
    ensures
        argmin_upto(loads, n) < n,
    decreases n,
{
    if n > 1 {
        lemma_argmin_bound(loads, (n - 1) as nat);
    }
}

proof fn lemma_nonempty_sum(sh: Seq<ShareModel>)
    ensures
        sum_nat(share_loads(nonempty_shares(sh))) == sum_nat(share_loads(sh)),
    decreases sh.len(),
{
    if sh.len() > 0 {
        lemma_nonempty_sum(sh.drop_last());
        let r = nonempty_shares(sh.drop_last());
        assert(share_loads(sh).drop_last() =~= share_loads(sh.drop_last()));
        if sh.last().1.len() > 0 {
            assert(share_loads(r.push(sh.last())).drop_last() =~= share_loads(r));
        }
    }
}

proof fn lemma_chunk_total(cs: Seq<CsvChunk>, sh: Seq<ShareModel>, header: Seq<char>)
    requires
        chunks_match(cs, sh, header),
    ensures
        chunk_line_total(cs) == sum_nat(share_loads(sh)),
    decreases cs.len(),
{
    if cs.len() > 0 {
        let c2 = cs.drop_last();
        let s2 = sh.drop_last();
        assert forall|i: int| 0 <= i < c2.len() implies chunk_matches(#[trigger] c2[i], s2[i], header) by {
            assert(chunk_matches(cs[i], sh[i], header));
        }
        lemma_chunk_total(c2, s2, header);
        assert(share_loads(sh).drop_last() =~= share_loads(s2));
        assert(chunk_matches(cs[cs.len() - 1], sh[sh.len() - 1], header));
    }
}

/// The chunks of a partition hold, all together, exactly as many lines as the
/// data has lines with a device: no line is lost or counted twice.
pub proof fn lemma_partition_keeps_lines(
    data: Seq<char>,
    d: char,
    idx: nat,
    w: nat,
    header: Seq<char>,
    ord: Seq<usize>,
    chunks: Seq<CsvChunk>,
)
    requires
        w > 0,
        group_lines(text_lines(data), d, idx).len() <= usize::MAX,
        is_lpt_order(group_lines(text_lines(data), d, idx), ord),
        chunks_match(chunks, lpt_shares(group_lines(text_lines(data), d, idx), ord, w), header),
    ensures
        chunk_line_total(chunks) == valid_line_count(text_lines(data), d, idx),
{
    let es = group_lines(text_lines(data), d, idx);
    lemma_total_grouped(text_lines(data), d, idx);
    lemma_chunk_total(chunks, lpt_shares(es, ord, w), header);
    lemma_nonempty_sum(shares_after(es, ord, w, es.len()));
    lemma_shares_sum(es, ord, w, es.len());
    assert(ord.take(es.len() as int) =~= ord);
    assert(ord.no_duplicates()) by {
        assert forall|i: int, j: int| 0 <= i < ord.len() && 0 <= j < ord.len() && i != j implies ord[i] != ord[j] by {
            if i < j {
                assert(lpt_before(es, ord[i] as int, ord[j] as int));
            } else {
                assert(lpt_before(es, ord[j] as int, ord[i] as int));
            }
        }
    }
    lemma_sum_counts_bound(es, ord);
}

/// No device id is in both shares.
pub open spec fn ids_disjoint(a: ShareModel, b: ShareModel) -> bool {
    forall|x: Seq<char>| a.0.contains(x) ==> !b.0.contains(x)
}

proof fn lemma_lpt_distinct(es: IndexModel, ord: Seq<usize>)
    requires
        is_lpt_order(es, ord),
    ensures
        ord.no_duplicates(),
{
    assert forall|i: int, j: int| 0 <= i < ord.len() && 0 <= j < ord.len() && i != j implies ord[i] != ord[j] by {
        if i < j {
            assert(lpt_before(es, ord[i] as int, ord[j] as int));
        } else {
            assert(lpt_before(es, ord[j] as int, ord[i] as int));
        }
    }
}

proof fn lemma_shares_disjoint(es: IndexModel, ord: Seq<usize>, w: nat, k: nat)
    requires
        w > 0,
        k <= ord.len(),
        ord.no_duplicates(),
        unique_devices(es),
        forall|i: int| 0 <= i < ord.len() ==> ord[i] < es.len(),
    ensures
        shares_after(es, ord, w, k).len() == w,
        forall|j: int, t: int| 0 <= j < w && 0 <= t < shares_after(es, ord, w, k)[j].0.len() ==> exists|u: int|
            0 <= u < k && #[trigger] shares_after(es, ord, w, k)[j].0[t] == es[ord[u] as int].0,
        forall|j1: int, j2: int| 0 <= j1 < w && 0 <= j2 < w && j1 != j2 ==> ids_disjoint(
            shares_after(es, ord, w, k)[j1],
            shares_after(es, ord, w, k)[j2],
        ),
    decreases k,
{
    if k > 0 {
        lemma_shares_disjoint(es, ord, w, (k - 1) as nat);
        let sh = shares_after(es, ord, w, (k - 1) as nat);
        let nsh = shares_after(es, ord, w, k);
        let j = least_loaded(sh) as int;
        lemma_argmin_bound(share_loads(sh), sh.len());
        let x = es[ord[k - 1] as int].0;
        assert forall|i: int| 0 <= i < w implies !sh[i].0.contains(x) by {
            if sh[i].0.contains(x) {
                let t = choose|t: int| 0 <= t < sh[i].0.len() && sh[i].0[t] == x;
                let u = choose|u: int| 0 <= u < k - 1 && sh[i].0[t] == es[ord[u] as int].0;
                assert(ord[u] != ord[k - 1]);
            }
        }
        assert(nsh[j].0 == sh[j].0.push(x));
        assert forall|i: int, t: int| 0 <= i < w && 0 <= t < nsh[i].0.len() implies exists|u: int|
            0 <= u < k && #[trigger] nsh[i].0[t] == es[ord[u] as int].0 by {
            if i == j && t == sh[j].0.len() {
                assert(nsh[i].0[t] == es[ord[k - 1] as int].0);
            } else {
                assert(nsh[i].0[t] == sh[i].0[t]);
                let u = choose|u: int| 0 <= u < k - 1 && sh[i].0[t] == es[ord[u] as int].0;
            }
        }
        assert forall|j1: int, j2: int| 0 <= j1 < w && 0 <= j2 < w && j1 != j2 implies ids_disjoint(nsh[j1], nsh[j2]) by {
            assert forall|y: Seq<char>| nsh[j1].0.contains(y) implies !nsh[j2].0.contains(y) by {
                assert(ids_disjoint(sh[j1], sh[j2]));
                let t = choose|t: int| 0 <= t < nsh[j1].0.len() && nsh[j1].0[t] == y;
                if j1 == j {
                    assert(nsh[j2] == sh[j2]);
                    if t < sh[j1].0.len() {
                        assert(sh[j1].0[t] == y);
                        assert(sh[j1].0.contains(y));
                    } else {
                        assert(y == x);
                    }
                } else {
                    assert(nsh[j1] == sh[j1]);
                    assert(sh[j1].0[t] == y);
                    assert(sh[j1].0.contains(y));
                    if j2 == j {
                        if nsh[j2].0.contains(y) {
                            let t2 = choose|t2: int| 0 <= t2 < nsh[j2].0.len() && nsh[j2].0[t2] == y;
                            if t2 < sh[j2].0.len() {
                                assert(sh[j2].0[t2] == y);
                                assert(sh[j2].0.contains(y));
                            } else {
                                assert(y == x);
                            }
                        }
                    } else {
                        assert(nsh[j2] == sh[j2]);
                    }
                }
            }
        }
    }
}

proof fn lemma_nonempty_from(sh: Seq<ShareModel>)
    ensures
        forall|i: int| 0 <= i < nonempty_shares(sh).len() ==> exists|j: int| 0 <= j < sh.len() && #[trigger] nonempty_shares(sh)[i] == sh[j],
        nonempty_shares(sh).len() <= sh.len(),
    decreases sh.len(),
{
    if sh.len() > 0 {
        lemma_nonempty_from(sh.drop_last());
        let r = nonempty_shares(sh.drop_last());
        let ns = nonempty_shares(sh);
        assert forall|i: int| 0 <= i < ns.len() implies exists|j: int| 0 <= j < sh.len() && #[trigger] ns[i] == sh[j] by {
            if i < r.len() {
                assert(ns[i] == r[i]);
                let j = choose|j: int| 0 <= j < sh.drop_last().len() && r[i] == sh.drop_last()[j];
                assert(sh[j] == sh.drop_last()[j]);
            } else {
                assert(ns[i] == sh[sh.len() - 1]);
            }
        }
    }
}

proof fn lemma_nonempty_disjoint(sh: Seq<ShareModel>)
    requires
        forall|j1: int, j2: int| 0 <= j1 < sh.len() && 0 <= j2 < sh.len() && j1 != j2 ==> ids_disjoint(sh[j1], sh[j2]),
    ensures
        forall|i1: int, i2: int| 0 <= i1 < nonempty_shares(sh).len() && 0 <= i2 < nonempty_shares(sh).len() && i1 != i2
            ==> ids_disjoint(nonempty_shares(sh)[i1], nonempty_shares(sh)[i2]),
    decreases sh.len(),
{
    if sh.len() > 0 {
        let s2 = sh.drop_last();
        assert forall|j1: int, j2: int| 0 <= j1 < s2.len() && 0 <= j2 < s2.len() && j1 != j2 implies ids_disjoint(s2[j1], s2[j2]) by {
            assert(s2[j1] == sh[j1] && s2[j2] == sh[j2]);
        }
        lemma_nonempty_disjoint(s2);
        lemma_nonempty_from(s2);
        let r = nonempty_shares(s2);
        let ns = nonempty_shares(sh);
        let last = sh.len() - 1;
        if sh.last().1.len() > 0 {
            assert forall|i1: int, i2: int| 0 <= i1 < ns.len() && 0 <= i2 < ns.len() && i1 != i2
                implies ids_disjoint(ns[i1], ns[i2]) by {
                if i1 < r.len() && i2 < r.len() {
                    assert(ns[i1] == r[i1] && ns[i2] == r[i2]);
                } else if i1 < r.len() {
                    let j = choose|j: int| 0 <= j < s2.len() && r[i1] == s2[j];
                    assert(ns[i1] == sh[j] && ns[i2] == sh[last]);
                } else {
                    let j = choose|j: int| 0 <= j < s2.len() && r[i2] == s2[j];
                    assert(ns[i2] == sh[j] && ns[i1] == sh[last]);
                }
            }
        }
    }
}

/// No device id appears in the device lists of two different chunks of a
/// partition: a device's lines are never split.
pub proof fn lemma_partition_separates_devices(
    es: IndexModel,
    w: nat,
    header: Seq<char>,
    ord: Seq<usize>,
    chunks: Seq<CsvChunk>,
)
    requires
        unique_devices(es),
        is_lpt_order(es, ord),
        chunks_match(chunks, lpt_shares(es, ord, w), header),
    ensures
        forall|a: int, b: int, ka: int, kb: int|
            0 <= a < chunks.len() && 0 <= b < chunks.len() && a != b && 0 <= ka < chunks[a].device_ids@.len()
                && 0 <= kb < chunks[b].device_ids@.len() ==> #[trigger] chunks[a].device_ids@[ka]@
                != #[trigger] chunks[b].device_ids@[kb]@,
{
    if w > 0 {
        lemma_lpt_distinct(es, ord);
        lemma_shares_disjoint(es, ord, w, es.len());
        let sh = shares_after(es, ord, w, es.len());
        lemma_nonempty_disjoint(sh);
        let ns = lpt_shares(es, ord, w);
        assert forall|a: int, b: int, ka: int, kb: int|
            0 <= a < chunks.len() && 0 <= b < chunks.len() && a != b && 0 <= ka < chunks[a].device_ids@.len()
                && 0 <= kb < chunks[b].device_ids@.len() implies #[trigger] chunks[a].device_ids@[ka]@
                != #[trigger] chunks[b].device_ids@[kb]@ by {
            assert(chunk_matches(chunks[a], ns[a], header));
            assert(chunk_matches(chunks[b], ns[b], header));
            let x = chunks[a].device_ids@[ka]@;
            assert(ns[a].0[ka] == x);
            assert(ns[a].0.contains(x));
            assert(ids_disjoint(ns[a], ns[b]));
            if chunks[b].device_ids@[kb]@ == x {
                assert(ns[b].0[kb] == x);
                assert(ns[b].0.contains(x));
            }
        }
    }
}

proof fn lemma_argmin_staircase(loads: Seq<nat>, n: nat, base: nat, c: nat, r: nat)
    requires
        c > 0,
        r < loads.len(),
        1 <= n <= loads.len(),
        forall|j: int| 0 <= j < loads.len() ==> loads[j] == base + if j < r { c } else { 0 },
    ensures
        argmin_upto(loads, n) == if n <= r { 0 } else { r },
    decreases n,
{
    if n > 1 {
        lemma_argmin_staircase(loads, (n - 1) as nat, base, c, r);
    }
}

proof fn lemma_equal_loads(es: IndexModel, ord: Seq<usize>, w: nat, c: nat, q: nat, r: nat)
    requires
        w > 0,
        c > 0,
        r < w,
        q * w + r <= ord.len(),
        forall|i: int| 0 <= i < ord.len() ==> ord[i] < es.len(),
        forall|p: int| 0 <= p < es.len() ==> es[p].1.len() == c,
    ensures
        shares_after(es, ord, w, q * w + r).len() == w,
        forall|j: int| 0 <= j < w ==> (#[trigger] shares_after(es, ord, w, q * w + r)[j]).1.len() == c * q + if j < r { c } else { 0 },
    decreases q * w + r,
{
    let k = q * w + r;
    if k == 0 {
        assert(q == 0) by (nonlinear_arith)
            requires
                q * w + r == 0,
                w > 0,
        ;
        assert(r == 0);
        assert(c * 0 == 0);
    } else {
        let (pq, pr) = if r > 0 { (q, (r - 1) as nat) } else { ((q - 1) as nat, (w - 1) as nat) };
        if r == 0 {
            assert(q > 0);
            assert(pq * w + pr == k - 1) by (nonlinear_arith)
                requires
                    pq == q - 1,
                    pr == w - 1,
                    k == q * w + r,
                    r == 0,
            ;
        }
        assert(pq * w + pr == k - 1);
        lemma_equal_loads(es, ord, w, c, pq, pr);
        let sh = shares_after(es, ord, w, (k - 1) as nat);
        assert(shares_after(es, ord, w, k) == {
            let j = least_loaded(sh) as int;
            let e = es[ord[k - 1] as int];
            sh.update(j, (sh[j].0.push(e.0), sh[j].1 + e.1))
        });
        lemma_argmin_staircase(share_loads(sh), w, c * pq, c, pr);
        assert(least_loaded(sh) == pr);
        assert(es[ord[k - 1] as int].1.len() == c);
        if r == 0 {
            assert(c * pq + c == c * q) by (nonlinear_arith)
                requires
                    pq == q - 1,
            ;
        }
    }
}

/// The smallest of a non-empty sequence.
pub open spec fn min_of(s: Seq<nat>) -> nat
    decreases s.len(),
{
    if s.len() <= 1 {
        if s.len() == 1 { s[0] } else { 0 }
    } else {
        let m = min_of(s.drop_last());
        if s.last() < m { s.last() } else { m }
    }
}

/// The largest of a non-empty sequence.
pub open spec fn max_of(s: Seq<nat>) -> nat
    decreases s.len(),
{
    if s.len() <= 1 {
        if s.len() == 1 { s[0] } else { 0 }
    } else {
        let m = max_of(s.drop_last());
        if s.last() > m { s.last() } else { m }
    }
}

/// The line counts of the chunks.
pub open spec fn chunk_loads(cs: Seq<CsvChunk>) -> Seq<nat> {
    cs.map_values(|c: CsvChunk| c.line_count as nat)
}

/// No chunk holds more lines than another: the imbalance ratio is 0.
pub open spec fn balanced(cs: Seq<CsvChunk>) -> bool {
    cs.len() == 0 || max_of(chunk_loads(cs)) == min_of(chunk_loads(cs))
}

proof fn lemma_constant_extremes(s: Seq<nat>, v: nat)
    requires
        s.len() > 0,
        forall|i: int| 0 <= i < s.len() ==> s[i] == v,
    ensures
        min_of(s) == v,
        max_of(s) == v,
    decreases s.len(),
{
    if s.len() > 1 {
        lemma_constant_extremes(s.drop_last(), v);
    }
}

proof fn lemma_all_nonempty(sh: Seq<ShareModel>)
    requires
        forall|j: int| 0 <= j < sh.len() ==> sh[j].1.len() > 0,
    ensures
        nonempty_shares(sh) == sh,
    decreases sh.len(),
{
    if sh.len() > 0 {
        lemma_all_nonempty(sh.drop_last());
        assert(sh.drop_last().push(sh.last()) =~= sh);
    }
}

proof fn lemma_all_empty(sh: Seq<ShareModel>)
    requires
        forall|j: int| 0 <= j < sh.len() ==> sh[j].1.len() == 0,
    ensures
        nonempty_shares(sh).len() == 0,
    decreases sh.len(),
{
    if sh.len() > 0 {
        lemma_all_empty(sh.drop_last());
    }
}

/// When every device has the same number of lines and the number of workers
/// divides the number of devices, every chunk of the partition holds the same
/// number of lines: the imbalance ratio is 0.
pub proof fn lemma_equal_devices_balanced(
    es: IndexModel,
    w: nat,
    header: Seq<char>,
    ord: Seq<usize>,
    chunks: Seq<CsvChunk>,
)
    requires
        w > 0,
        (es.len() as int) % (w as int) == 0,
        forall|p: int| 0 <= p < es.len() ==> es[p].1.len() > 0,
        forall|p: int| 0 <= p < es.len() ==> (#[trigger] es[p]).1.len() == es[0].1.len(),
        is_lpt_order(es, ord),
        chunks_match(chunks, lpt_shares(es, ord, w), header),
    ensures
        balanced(chunks),
{
    if es.len() > 0 {
        let c = es[0].1.len();
        let m = ((es.len() as int) / (w as int)) as nat;
        vstd::arithmetic::div_mod::lemma_fundamental_div_mod(es.len() as int, w as int);
        assert(m * w + 0 == es.len()) by (nonlinear_arith)
            requires
                es.len() == (w as int) * ((es.len() as int) / (w as int)) + (es.len() as int) % (w as int),
                (es.len() as int) % (w as int) == 0,
                m == (es.len() as int) / (w as int),
        ;
        lemma_equal_loads(es, ord, w, c, m, 0);
        let sh = shares_after(es, ord, w, es.len());
        assert(m > 0) by (nonlinear_arith)
            requires
                m * w == es.len(),
                es.len() > 0,
        ;
        assert(c * m > 0) by (nonlinear_arith)
            requires
                c > 0,
                m > 0,
        ;
        assert forall|j: int| 0 <= j < w implies sh[j].1.len() == c * m by {
            assert(sh[j] == shares_after(es, ord, w, m * w + 0)[j]);
        }
        lemma_all_nonempty(sh);
        if chunks.len() > 0 {
            assert forall|i: int| 0 <= i < chunks.len() implies chunk_loads(chunks)[i] == c * m by {
                assert(chunk_matches(chunks[i], sh[i], header));
            }
            lemma_constant_extremes(chunk_loads(chunks), c * m);
        }
    } else {
        let sh = shares_after(es, ord, w, 0);
        lemma_all_empty(sh);
    }
}

/// Load figures of a partition: the smallest and largest chunk, the total
/// number of lines and the number of chunks. The imbalance ratio is
/// `(max_load - min_load) / (total_load / chunk_count)`, and 0 when there is
/// no chunk or no line.
#[derive(Debug, Clone, Copy, PartialEq, Eq)]
pub struct LoadBalanceStats {
    pub min_load: usize,
    pub max_load: usize,
    pub total_load: u128,
    pub chunk_count: usize,
}

impl LoadBalanceStats {
    /// Whether the imbalance ratio is 0.
    pub fn imbalance_is_zero(&self) -> (r: bool)
        ensures
            r == (self.chunk_count == 0 || self.total_load == 0 || self.max_load == self.min_load),
    {
        self.chunk_count == 0 || self.total_load == 0 || self.max_load == self.min_load
    }
}

/// The load figures of `chunks`; all zero when there is none.
pub fn calculate_load_balance_stats(chunks: &[CsvChunk]) -> (r: LoadBalanceStats)
    ensures
        r.chunk_count == chunks@.len(),
        r.total_load == sum_nat(chunk_loads(chunks@)),
        chunks@.len() == 0 ==> r.min_load == 0 && r.max_load == 0,
        chunks@.len() > 0 ==> r.min_load == min_of(chunk_loads(chunks@)) && r.max_load == max_of(
            chunk_loads(chunks@),
        ),
        (r.chunk_count == 0 || r.max_load == r.min_load) == balanced(chunks@),
{
    let ghost loads = chunk_loads(chunks@);
    let n = chunks.len();
    if n == 0 {
        return LoadBalanceStats { min_load: 0, max_load: 0, total_load: 0, chunk_count: 0 };
    }
    let mut min_load = chunks[0].line_count;
    let mut max_load = chunks[0].line_count;
    let mut total: u128 = chunks[0].line_count as u128;
    proof {
        assert(loads.take(1).drop_last() =~= Seq::<nat>::empty());
        assert(loads.take(1).last() == loads[0]);
        assert(sum_nat(loads.take(1).drop_last()) == 0);
        assert(sum_nat(loads.take(1)) == loads[0]);
    }
    let mut i: usize = 1;
    while i < n
        invariant
            n == chunks@.len(),
            loads == chunk_loads(chunks@),
            1 <= i <= n,
            min_load == min_of(loads.take(i as int)),
            max_load == max_of(loads.take(i as int)),
            total == sum_nat(loads.take(i as int)),
            total <= i * 0xffff_ffff_ffff_ffffu128,
        decreases n - i,
    {
        let c = chunks[i].line_count;
        assert(loads.take(i + 1).drop_last() =~= loads.take(i as int));
        assert(loads[i as int] == c);
        if c < min_load {
            min_load = c;
        }
        if c > max_load {
            max_load = c;
        }
        assert(total + c <= (i + 1) * 0xffff_ffff_ffff_ffffu128) by (nonlinear_arith)
            requires
                total <= i * 0xffff_ffff_ffff_ffffu128,
                c <= 0xffff_ffff_ffff_ffffu64,
        ;
        assert((i + 1) * 0xffff_ffff_ffff_ffffu128 <= 0xffff_ffff_ffff_ffff_ffff_ffff_ffff_ffffu128) by (nonlinear_arith)
            requires
                i < 0xffff_ffff_ffff_ffffu64,
        ;
        total = total + c as u128;
        i = i + 1;
    }
    assert(loads.take(n as int) =~= loads);
    LoadBalanceStats { min_load, max_load, total_load: total, chunk_count: n }
}

} // verus!
