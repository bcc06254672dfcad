//! Grouping of the selected rows by device and month, and the sorted list of
//! per-sensor value series.
use crate::data_analysis::{
    column_of, find_column, lemma_column_bound, lemma_column_found, row_models, rows_consistent,
    ChunkRows, RowModel,
};
use crate::text::{
    chars_of, compare_chars, lemma_lt_irreflexive, lemma_lt_total, lemma_lt_transitive, seq_lt,
    string_of, views,
};
use crate::types::string_views;
use vstd::prelude::*;

verus! {

/// A device and a month.
pub type GroupKey = (Seq<char>, Seq<char>);

/// Lexicographic order on (device, month).
pub open spec fn pair_lt(a: GroupKey, b: GroupKey) -> bool {
    seq_lt(a.0, b.0) || (a.0 == b.0 && seq_lt(a.1, b.1))
}

/// The order on (device, month) is irreflexive, transitive and total.
pub proof fn lemma_pair_order(a: GroupKey, b: GroupKey, c: GroupKey)
    ensures
        !pair_lt(a, a),
        pair_lt(a, b) && pair_lt(b, c) ==> pair_lt(a, c),
        a == b || pair_lt(a, b) || pair_lt(b, a),
{
    lemma_lt_irreflexive(a.0);
    lemma_lt_irreflexive(a.1);
    lemma_lt_total(a.0, b.0);
    lemma_lt_total(a.1, b.1);
    if seq_lt(a.0, b.0) && seq_lt(b.0, c.0) {
        lemma_lt_transitive(a.0, b.0, c.0);
    }
    if seq_lt(a.1, b.1) && seq_lt(b.1, c.1) {
        lemma_lt_transitive(a.1, b.1, c.1);
    }
}

/// The group of a row.
pub open spec fn row_key(r: RowModel) -> GroupKey {
    (r.device, r.year_month)
}

/// The positions below `n` of the kept rows of group `key`, in order.
pub open spec fn member_rows(rows: Seq<RowModel>, keep: Seq<bool>, n: nat, key: GroupKey) -> Seq<usize>
    decreases n,
{
    if n == 0 {
        Seq::empty()
    } else {
        let p = member_rows(rows, keep, (n - 1) as nat, key);
        if keep[n - 1] && row_key(rows[n - 1]) == key {
            p.push((n - 1) as usize)
        } else {
            p
        }
    }
}

/// The values of sensor `si` over the kept rows of a group, in row order.
pub open spec fn group_values(rows: Seq<RowModel>, keep: Seq<bool>, key: GroupKey, si: nat) -> Seq<Seq<char>> {
    member_rows(rows, keep, rows.len(), key).map_values(|m: usize| rows[m as int].readings[si as int])
}

/// The values of one sensor in one device and month.
pub struct SeriesModel {
    pub device: Seq<char>,
    pub year_month: Seq<char>,
    pub sensor: Seq<char>,
    pub values: Seq<Seq<char>>,
}

/// Order of series: by device, then month, then sensor name.
pub open spec fn series_lt(x: SeriesModel, y: SeriesModel) -> bool {
    pair_lt((x.device, x.year_month), (y.device, y.year_month)) || ((x.device, x.year_month) == (
        y.device,
        y.year_month,
    ) && seq_lt(x.sensor, y.sensor))
}

/// `out` lists, sorted by device, month and sensor, one series for each sensor
/// and each (device, month) of a kept row, with the values of that sensor in
/// those rows.
pub open spec fn is_aggregation(
    out: Seq<SeriesModel>,
    rows: Seq<RowModel>,
    keep: Seq<bool>,
    sensors: Seq<Seq<char>>,
) -> bool {
    &&& forall|i: int, j: int| 0 <= i < j < out.len() ==> series_lt(out[i], out[j])
    &&& forall|i: int| 0 <= i < out.len() ==> series_fits(out[i], rows, keep, sensors)
    &&& forall|r: int, si: int|
        0 <= r < rows.len() && keep[r] && 0 <= si < sensors.len() ==> #[trigger] has_series(
            out,
            row_key(rows[r]),
            sensors[si],
        )
}

/// `out` holds a series for this device, month and sensor.
pub open spec fn has_series(out: Seq<SeriesModel>, key: GroupKey, sensor: Seq<char>) -> bool {
    exists|i: int| 0 <= i < out.len() && (out[i].device, out[i].year_month) == key && out[i].sensor == sensor
}

/// The values of one sensor over the readings of one device in one month.
#[derive(Debug, Clone)]
pub struct SensorSeries {
    pub device: String,
    pub year_month: String,
    pub sensor: String,
    pub values: Vec<String>,
}

impl SensorSeries {
    /// The series as text.
    pub open spec fn model(self) -> SeriesModel {
        SeriesModel {
            device: self.device@,
            year_month: self.year_month@,
            sensor: self.sensor@,
            values: string_views(self.values@),
        }
    }
}

/// The models of a sequence of series.
pub open spec fn series_models(s: Seq<SensorSeries>) -> Seq<SeriesModel> {
    s.map_values(|x: SensorSeries| x.model())
}

/// The (device, month) pairs held by a sequence of character-vector pairs.
pub open spec fn group_views(g: Seq<(Vec<char>, Vec<char>)>) -> Seq<GroupKey> {
    g.map_values(|p: (Vec<char>, Vec<char>)| (p.0@, p.1@))
}

/// Compares two (device, month) pairs.
fn compare_pair(a0: &[char], a1: &[char], b0: &[char], b1: &[char]) -> (r: i8)
    ensures
        (r < 0) == pair_lt((a0@, a1@), (b0@, b1@)),
        (r == 0) == ((a0@, a1@) == (b0@, b1@)),
        (r > 0) == pair_lt((b0@, b1@), (a0@, a1@)),
{
    let c = compare_chars(a0, b0);
    if c != 0 {
        c
    } else {
        compare_chars(a1, b1)
    }
}

proof fn lemma_member_rows_sound(rows: Seq<RowModel>, keep: Seq<bool>, n: nat, key: GroupKey)
    requires
        n <= usize::MAX,
        n <= rows.len(),
        n <= keep.len(),
    ensures
        forall|i: int| 0 <= i < member_rows(rows, keep, n, key).len() ==> {
            let m = #[trigger] member_rows(rows, keep, n, key)[i];
            m < n && keep[m as int] && row_key(rows[m as int]) == key
        },
    decreases n,
{
    if n > 0 {
        lemma_member_rows_sound(rows, keep, (n - 1) as nat, key);
        let p = member_rows(rows, keep, (n - 1) as nat, key);
        let cur = member_rows(rows, keep, n, key);
        assert forall|i: int| 0 <= i < cur.len() implies {
            let m = #[trigger] cur[i];
            m < n && keep[m as int] && row_key(rows[m as int]) == key
        } by {
            if i < p.len() {
                assert(cur[i] == p[i]);
            }
        }
    }
}

proof fn lemma_member_rows_absent(rows: Seq<RowModel>, keep: Seq<bool>, n: nat, key: GroupKey)
    requires
        forall|r: int| 0 <= r < n && keep[r] ==> row_key(rows[r]) != key,
    ensures
        member_rows(rows, keep, n, key).len() == 0,
    decreases n,
{
    if n > 0 {
        lemma_member_rows_absent(rows, keep, (n - 1) as nat, key);
    }
}

/// The (device, month) groups of the kept rows, sorted, with the positions of
/// their rows.
fn group_rows(cr: &ChunkRows, keep: &Vec<bool>) -> (res: (Vec<(Vec<char>, Vec<char>)>, Vec<Vec<usize>>))
    requires
        keep@.len() == cr.rows@.len(),
    ensures
        res.0@.len() == res.1@.len(),
        forall|i: int, j: int| 0 <= i < j < res.0@.len() ==> pair_lt(group_views(res.0@)[i], group_views(res.0@)[j]),
        forall|g: int| 0 <= g < res.0@.len() ==> res.1@[g]@ == member_rows(row_models(cr.rows@), keep@, cr.rows@.len() as nat, group_views(res.0@)[g]),
        forall|g: int| 0 <= g < res.0@.len() ==> res.1@[g]@.len() > 0,
        forall|r: int| 0 <= r < cr.rows@.len() && keep@[r] ==> exists|g: int| 0 <= g < res.0@.len() && group_views(res.0@)[g] == row_key(row_models(cr.rows@)[r]),
{
    let ghost rows = row_models(cr.rows@);
    let mut groups: Vec<(Vec<char>, Vec<char>)> = Vec::new();
    let mut members: Vec<Vec<usize>> = Vec::new();
    let mut hint: usize = 0;
    let mut r: usize = 0;
    while r < cr.rows.len()
        invariant
            rows == row_models(cr.rows@),
            keep@.len() == cr.rows@.len(),
            r <= cr.rows@.len(),
            groups@.len() == members@.len(),
            forall|i: int, j: int| 0 <= i < j < groups@.len() ==> pair_lt(group_views(groups@)[i], group_views(groups@)[j]),
            forall|g: int| 0 <= g < groups@.len() ==> members@[g]@ == member_rows(rows, keep@, r as nat, group_views(groups@)[g]),
            forall|g: int| 0 <= g < groups@.len() ==> members@[g]@.len() > 0,
            forall|q: int| 0 <= q < r && keep@[q] ==> exists|g: int| 0 <= g < groups@.len() && group_views(groups@)[g] == row_key(rows[q]),
        decreases cr.rows.len() - r,
    {
        let ghost gv = group_views(groups@);
        let ghost old_members = members@;
        if keep[r] {
            let row = &cr.rows[r];
            let dc = chars_of(row.device.as_str());
            let yc = chars_of(row.year_month.as_str());
            let ghost key = (dc@, yc@);
            assert(key == row_key(rows[r as int]));
            let mut pos: usize = 0;
            let mut found = false;
            if hint < groups.len() && compare_pair(groups[hint].0.as_slice(), groups[hint].1.as_slice(), dc.as_slice(), yc.as_slice()) == 0 {
                pos = hint;
                found = true;
                proof {
                    assert(gv[pos as int] == (groups@[pos as int].0@, groups@[pos as int].1@));
                    assert forall|q: int| 0 <= q < gv.len() && q != pos implies gv[q] != key by {
                        lemma_pair_order(gv[q], key, gv[q]);
                    }
                }
            } else {
                while pos < groups.len() && compare_pair(groups[pos].0.as_slice(), groups[pos].1.as_slice(), dc.as_slice(), yc.as_slice()) < 0
                    invariant
                        pos <= groups@.len(),
                        gv == group_views(groups@),
                        key == (dc@, yc@),
                        forall|q: int| 0 <= q < pos ==> pair_lt(gv[q], key),
                    decreases groups.len() - pos,
                {
                    assert(gv[pos as int] == (groups@[pos as int].0@, groups@[pos as int].1@));
                    pos = pos + 1;
                }
                found = pos < groups.len() && compare_pair(groups[pos].0.as_slice(), groups[pos].1.as_slice(), dc.as_slice(), yc.as_slice()) == 0;
                proof {
                    if pos < groups@.len() {
                        assert(gv[pos as int] == (groups@[pos as int].0@, groups@[pos as int].1@));
                    }
                    assert forall|q: int| 0 <= q < gv.len() && (q != pos || !found) implies gv[q] != key by {
                        lemma_pair_order(gv[q], key, gv[q]);
                        if q > pos {
                            lemma_pair_order(key, gv[pos as int], gv[q]);
                        }
                    }
                }
            }
            hint = pos;
            if found {
                members[pos].push(r);
                proof {
                    let ng = group_views(groups@);
                    assert(ng == gv);
                    assert forall|g: int| 0 <= g < groups@.len() implies members@[g]@ == member_rows(rows, keep@, (r + 1) as nat, ng[g]) by {
                        if g == pos {
                            assert(members@[g]@ == old_members[g]@.push(r));
                        } else {
                            assert(members@[g] == old_members[g]);
                        }
                    }
                    assert forall|q: int| 0 <= q < r + 1 && keep@[q] implies exists|g: int| 0 <= g < groups@.len() && group_views(groups@)[g] == row_key(rows[q]) by {
                        if q == r {
                            assert(ng[pos as int] == row_key(rows[q]));
                        }
                    }
                }
            } else {
                proof {
                    assert forall|q: int| 0 <= q < r && keep@[q] implies row_key(rows[q]) != key by {
                        let g = choose|g: int| 0 <= g < gv.len() && gv[g] == row_key(rows[q]);
                    }
                    lemma_member_rows_absent(rows, keep@, r as nat, key);
                }
                let ghost dcv = dc@;
                let ghost ycv = yc@;
                groups.insert(pos, (dc, yc));
                members.insert(pos, vec![r]);
                proof {
                    let ng = group_views(groups@);
                    assert(ng =~= gv.insert(pos as int, key));
                    assert(members@ == old_members.insert(pos as int, members@[pos as int]));
                    assert(members@[pos as int]@ =~= seq![r]);
                    assert forall|i: int, j: int| 0 <= i < j < groups@.len() implies pair_lt(ng[i], ng[j]) by {
                        if i < pos && j == pos {
                        } else if i == pos && j > pos {
                            if j - 1 > pos {
                                lemma_pair_order(key, gv[pos as int], gv[j - 1]);
                            }
                        } else if i < pos && j > pos {
                            lemma_pair_order(gv[i], key, gv[j - 1]);
                        } else if i > pos {
                            assert(ng[i] == gv[i - 1] && ng[j] == gv[j - 1]);
                        }
                    }
                    assert forall|g: int| 0 <= g < groups@.len() implies members@[g]@ == member_rows(rows, keep@, (r + 1) as nat, ng[g]) by {
                        if g < pos {
                            assert(members@[g] == old_members[g]);
                        } else if g > pos {
                            assert(members@[g] == old_members[g - 1]);
                            assert(ng[g] == gv[g - 1]);
                        }
                    }
                    assert forall|g: int| 0 <= g < groups@.len() implies members@[g]@.len() > 0 by {
                        if g < pos {
                            assert(members@[g] == old_members[g]);
                        } else if g > pos {
                            assert(members@[g] == old_members[g - 1]);
                        }
                    }
                    assert forall|q: int| 0 <= q < r + 1 && keep@[q] implies exists|g: int| 0 <= g < groups@.len() && group_views(groups@)[g] == row_key(rows[q]) by {
                        if q == r {
                            assert(ng[pos as int] == row_key(rows[q]));
                        } else {
                            let g = choose|g: int| 0 <= g < gv.len() && gv[g] == row_key(rows[q]);
                            if g < pos {
                                assert(ng[g] == gv[g]);
                            } else {
                                assert(ng[g + 1] == gv[g]);
                            }
                        }
                    }
                }
            }
        } else {
            proof {
                assert forall|g: int| 0 <= g < groups@.len() implies members@[g]@ == member_rows(rows, keep@, (r + 1) as nat, gv[g]) by {}
            }
        }
        r = r + 1;
    }
    (groups, members)
}

/// The positions of the sensors whose name first occurs there, sorted by name.
fn sensor_order(names: &Vec<Vec<char>>) -> (r: Vec<usize>)
    ensures
        forall|a: int, b: int| 0 <= a < b < r@.len() ==> seq_lt(views(names@)[r@[a] as int], views(names@)[r@[b] as int]),
        forall|a: int| 0 <= a < r@.len() ==> r@[a] < names@.len() && column_of(views(names@), views(names@)[r@[a] as int]) == Some(r@[a] as nat),
        forall|x: usize| x < names@.len() && column_of(views(names@), views(names@)[x as int]) == Some(x as nat) ==> #[trigger] r@.contains(x),
{
    let ghost sv = views(names@);
    let mut r: Vec<usize> = Vec::new();
    let mut si: usize = 0;
    while si < names.len()
        invariant
            sv == views(names@),
            si <= names@.len(),
            forall|a: int, b: int| 0 <= a < b < r@.len() ==> seq_lt(sv[r@[a] as int], sv[r@[b] as int]),
            forall|a: int| 0 <= a < r@.len() ==> r@[a] < si && column_of(sv, sv[r@[a] as int]) == Some(r@[a] as nat),
            forall|x: usize| x < si && column_of(sv, sv[x as int]) == Some(x as nat) ==> #[trigger] r@.contains(x),
        decreases names.len() - si,
    {
        let first = find_column(names, names[si].as_slice());
        assert(sv[si as int] == names@[si as int]@);
        if first == Some(si) {
            let mut pos: usize = 0;
            while pos < r.len() && compare_chars(names[r[pos]].as_slice(), names[si].as_slice()) < 0
                invariant
                    sv == views(names@),
                    si < names@.len(),
                    pos <= r@.len(),
                    forall|a: int| 0 <= a < r@.len() ==> r@[a] < si,
                    forall|a: int| 0 <= a < pos ==> seq_lt(sv[r@[a] as int], sv[si as int]),
                decreases r.len() - pos,
            {
                assert(sv[r@[pos as int] as int] == names@[r@[pos as int] as int]@);
                pos = pos + 1;
            }
            proof {
                if pos < r@.len() {
                    let y = r@[pos as int] as int;
                    assert(sv[y] == names@[y]@);
                    lemma_lt_total(sv[y], sv[si as int]);
                    if sv[y] == sv[si as int] {
                        assert(column_of(sv, sv[y]) == Some(si as nat));
                    }
                    assert forall|b: int| pos <= b < r@.len() implies seq_lt(sv[si as int], sv[r@[b] as int]) by {
                        if b > pos {
                            lemma_lt_transitive(sv[si as int], sv[y], sv[r@[b] as int]);
                        }
                    }
                }
            }
            let ghost r0 = r@;
            r.insert(pos, si);
            proof {
                assert(r@ == r0.insert(pos as int, si));
                assert forall|a: int, b: int| 0 <= a < b < r@.len() implies seq_lt(sv[r@[a] as int], sv[r@[b] as int]) by {
                    if a < pos && b > pos {
                        lemma_lt_transitive(sv[r@[a] as int], sv[si as int], sv[r@[b] as int]);
                    }
                }
                assert forall|x: usize| x < si + 1 && column_of(sv, sv[x as int]) == Some(x as nat) implies #[trigger] r@.contains(x) by {
                    if x == si {
                        assert(r@[pos as int] == x);
                    } else {
                        assert(r0.contains(x));
                        let a = choose|a: int| 0 <= a < r0.len() && r0[a] == x;
                        if a < pos {
                            assert(r@[a] == x);
                        } else {
                            assert(r@[a + 1] == x);
                        }
                    }
                }
            }
        } else {
            proof {
                assert forall|x: usize| x < si + 1 && column_of(sv, sv[x as int]) == Some(x as nat) implies #[trigger] r@.contains(x) by {
                    if x == si {
                        assert(false);
                    }
                }
            }
        }
        si = si + 1;
    }
    r
}

/// The values of sensor `si` in the given rows.
fn collect_values(cr: &ChunkRows, members: &Vec<usize>, si: usize) -> (r: Vec<String>)
    requires
        rows_consistent(*cr),
        si < cr.sensors@.len(),
        forall|k: int| 0 <= k < members@.len() ==> members@[k] < cr.rows@.len(),
    ensures
        string_views(r@) == members@.map_values(|m: usize| row_models(cr.rows@)[m as int].readings[si as int]),
{
    let ghost rows = row_models(cr.rows@);
    let mut r: Vec<String> = Vec::new();
    let mut k: usize = 0;
    while k < members.len()
        invariant
            rows == row_models(cr.rows@),
            rows_consistent(*cr),
            si < cr.sensors@.len(),
            forall|k: int| 0 <= k < members@.len() ==> members@[k] < cr.rows@.len(),
            k <= members@.len(),
            string_views(r@) == members@.take(k as int).map_values(|m: usize| rows[m as int].readings[si as int]),
        decreases members.len() - k,
    {
        let m = members[k];
        let row = &cr.rows[m];
        assert(row.readings@.len() == cr.sensors@.len());
        let v = row.readings[si].clone();
        let ghost r0 = r@;
        r.push(v);
        assert(string_views(r@) =~= string_views(r0).push(v@));
        assert(members@.take(k + 1).map_values(|m: usize| rows[m as int].readings[si as int])
            =~= members@.take(k as int).map_values(|m: usize| rows[m as int].readings[si as int]).push(rows[m as int].readings[si as int]));
        k = k + 1;
    }
    assert(members@.take(k as int) =~= members@);
    r
}

/// Aggregates the rows whose `keep` flag is set: one series for each sensor
/// and each (device, month) of those rows, holding that sensor's values in
/// row order, the whole sorted by device, month and sensor name.
pub fn aggregate_rows(cr: &ChunkRows, keep: &Vec<bool>) -> (r: Vec<SensorSeries>)
    requires
        rows_consistent(*cr),
        keep@.len() == cr.rows@.len(),
    ensures
        is_aggregation(series_models(r@), row_models(cr.rows@), keep@, string_views(cr.sensors@)),
{
    let ghost rows = row_models(cr.rows@);
    let ghost sv = string_views(cr.sensors@);
    let (groups, members) = group_rows(cr, keep);
    let ghost gv = group_views(groups@);
    let mut names: Vec<Vec<char>> = Vec::new();
    let mut i: usize = 0;
    while i < cr.sensors.len()
        invariant
            i <= cr.sensors@.len(),
            sv == string_views(cr.sensors@),
            views(names@) == sv.take(i as int),
        decreases cr.sensors.len() - i,
    {
        let c = chars_of(cr.sensors[i].as_str());
        let ghost n0 = names@;
        names.push(c);
        assert(views(names@) =~= views(n0).push(c@));
        assert(sv.take(i + 1) =~= sv.take(i as int).push(sv[i as int]));
        i = i + 1;
    }
    assert(sv.take(i as int) =~= sv);
    let order = sensor_order(&names);
    let n_rows = cr.rows.len();
    let mut out: Vec<SensorSeries> = Vec::new();
    let mut g: usize = 0;
    while g < groups.len()
        invariant
            rows == row_models(cr.rows@),
            sv == string_views(cr.sensors@),
            views(names@) == sv,
            rows_consistent(*cr),
            n_rows == cr.rows@.len(),
            keep@.len() == cr.rows@.len(),
            gv == group_views(groups@),
            groups@.len() == members@.len(),
            forall|i: int, j: int| 0 <= i < j < groups@.len() ==> pair_lt(gv[i], gv[j]),
            forall|g: int| 0 <= g < groups@.len() ==> members@[g]@ == member_rows(rows, keep@, cr.rows@.len() as nat, gv[g]),
            forall|g: int| 0 <= g < groups@.len() ==> members@[g]@.len() > 0,
            forall|a: int, b: int| 0 <= a < b < order@.len() ==> seq_lt(sv[order@[a] as int], sv[order@[b] as int]),
            forall|a: int| 0 <= a < order@.len() ==> order@[a] < names@.len() && column_of(sv, sv[order@[a] as int]) == Some(order@[a] as nat),
            forall|x: usize| x < names@.len() && column_of(sv, sv[x as int]) == Some(x as nat) ==> #[trigger] order@.contains(x),
            forall|r: int| 0 <= r < cr.rows@.len() && keep@[r] ==> exists|h: int| 0 <= h < gv.len() && gv[h] == row_key(rows[r]),
            g <= groups@.len(),
            forall|i: int, j: int| 0 <= i < j < out@.len() ==> series_lt(series_models(out@)[i], series_models(out@)[j]),
            forall|i: int| 0 <= i < out@.len() ==> in_groups_before(series_models(out@)[i], gv, g as int),
            forall|i: int| 0 <= i < out@.len() ==> series_fits(series_models(out@)[i], rows, keep@, sv),
            forall|h: int, t: int| 0 <= h < g && 0 <= t < order@.len() ==> has_series(series_models(out@), gv[h], sv[order@[t] as int]),
        decreases groups.len() - g,
    {
        proof {
            lemma_member_rows_sound(rows, keep@, cr.rows@.len() as nat, gv[g as int]);
        }
        let ghost out_g = series_models(out@);
        let mut t: usize = 0;
        while t < order.len()
            invariant
                rows == row_models(cr.rows@),
                sv == string_views(cr.sensors@),
                views(names@) == sv,
                rows_consistent(*cr),
                keep@.len() == cr.rows@.len(),
                gv == group_views(groups@),
                groups@.len() == members@.len(),
                forall|i: int, j: int| 0 <= i < j < groups@.len() ==> pair_lt(gv[i], gv[j]),
                forall|g: int| 0 <= g < groups@.len() ==> members@[g]@ == member_rows(rows, keep@, cr.rows@.len() as nat, gv[g]),
                forall|g: int| 0 <= g < groups@.len() ==> members@[g]@.len() > 0,
                forall|k: int| 0 <= k < members@[g as int]@.len() ==> members@[g as int]@[k] < cr.rows@.len()
                    && keep@[members@[g as int]@[k] as int] && row_key(rows[members@[g as int]@[k] as int]) == gv[g as int],
                forall|a: int, b: int| 0 <= a < b < order@.len() ==> seq_lt(sv[order@[a] as int], sv[order@[b] as int]),
                forall|a: int| 0 <= a < order@.len() ==> order@[a] < names@.len() && column_of(sv, sv[order@[a] as int]) == Some(order@[a] as nat),
                g < groups@.len(),
                t <= order@.len(),
                forall|i: int, j: int| 0 <= i < j < out@.len() ==> series_lt(series_models(out@)[i], series_models(out@)[j]),
                forall|i: int| 0 <= i < out@.len() ==> in_groups_before(series_models(out@)[i], gv, g as int)
                    || ((series_models(out@)[i].device, series_models(out@)[i].year_month) == gv[g as int]
                        && sensor_before(series_models(out@)[i], sv, order@, t as int)),
                forall|i: int| 0 <= i < out@.len() ==> series_fits(series_models(out@)[i], rows, keep@, sv),
                forall|h: int, u: int| 0 <= h < g && 0 <= u < order@.len() ==> has_series(series_models(out@), gv[h], sv[order@[u] as int]),
                forall|u: int| 0 <= u < t ==> has_series(series_models(out@), gv[g as int], sv[order@[u] as int]),
            decreases order.len() - t,
        {
            let si = order[t];
            let values = collect_values(cr, &members[g], si);
            let x = SensorSeries {
                device: string_of(groups[g].0.as_slice()),
                year_month: string_of(groups[g].1.as_slice()),
                sensor: cr.sensors[si].clone(),
                values,
            };
            let ghost o0 = series_models(out@);
            proof {
                let xm = x.model();
                assert((xm.device, xm.year_month) == gv[g as int]);
                assert(xm.sensor == sv[si as int]);
                assert forall|i: int| 0 <= i < o0.len() implies series_lt(o0[i], xm) by {
                    if in_groups_before(o0[i], gv, g as int) {
                        let h = choose|h: int| 0 <= h < g && (o0[i].device, o0[i].year_month) == gv[h];
                    } else {
                        let u = choose|u: int| 0 <= u < t && o0[i].sensor == sv[order@[u] as int];
                    }
                }
                let m0 = members@[g as int]@[0];
                assert(keep@[m0 as int] && row_key(rows[m0 as int]) == (xm.device, xm.year_month));
                assert(xm.values =~= group_values(rows, keep@, gv[g as int], si as nat));
                assert(series_fits(xm, rows, keep@, sv));
            }
            out.push(x);
            proof {
                let o1 = series_models(out@);
                assert(o1 =~= o0.push(x.model()));
                assert forall|h: int, u: int| 0 <= h < g && 0 <= u < order@.len() implies has_series(o1, gv[h], sv[order@[u] as int]) by {
                    assert(has_series(o0, gv[h], sv[order@[u] as int]));
                    let i = choose|i: int| 0 <= i < o0.len() && (o0[i].device, o0[i].year_month) == gv[h] && o0[i].sensor == sv[order@[u] as int];
                    assert(o1[i] == o0[i]);
                }
                assert forall|u: int| 0 <= u < t + 1 implies has_series(o1, gv[g as int], sv[order@[u] as int]) by {
                    if u == t {
                        assert(o1[o0.len() as int] == x.model());
                    } else {
                        assert(has_series(o0, gv[g as int], sv[order@[u] as int]));
                        let i = choose|i: int| 0 <= i < o0.len() && (o0[i].device, o0[i].year_month) == gv[g as int] && o0[i].sensor == sv[order@[u] as int];
                        assert(o1[i] == o0[i]);
                    }
                }
                assert forall|i: int| 0 <= i < o1.len() implies in_groups_before(o1[i], gv, g as int)
                    || ((o1[i].device, o1[i].year_month) == gv[g as int]
                        && sensor_before(o1[i], sv, order@, t + 1)) by {
                    if i == o0.len() {
                        assert(o1[i].sensor == sv[order@[t as int] as int]);
                    } else {
                        assert(o1[i] == o0[i]);
                    }
                }
            }
            t = t + 1;
        }
        proof {
            let o1 = series_models(out@);
            assert forall|i: int| 0 <= i < o1.len() implies in_groups_before(o1[i], gv, g + 1) by {
                if in_groups_before(o1[i], gv, g as int) {
                    let h = choose|h: int| 0 <= h < g && (o1[i].device, o1[i].year_month) == gv[h];
                } else {
                    assert((o1[i].device, o1[i].year_month) == gv[g as int]);
                }
            }
        }
        g = g + 1;
    }
    proof {
        let o = series_models(out@);
        assert forall|r: int, si: int| 0 <= r < rows.len() && keep@[r] && 0 <= si < sv.len()
            implies #[trigger] has_series(o, row_key(rows[r]), sv[si]) by {
            let h = choose|h: int| 0 <= h < gv.len() && gv[h] == row_key(rows[r]);
            lemma_column_bound(sv, sv[si]);
            lemma_column_found(sv, si);
            let x = column_of(sv, sv[si]).unwrap();
            assert(sv[x as int] == sv[si]);
            assert(order@.contains(x as usize));
            let u = choose|u: int| 0 <= u < order@.len() && order@[u] == x as usize;
            assert(has_series(o, gv[h], sv[order@[u] as int]));
        }
    }
    out
}

/// The series belongs to one of the first `g` groups.
pub open spec fn in_groups_before(x: SeriesModel, gv: Seq<GroupKey>, g: int) -> bool {
    exists|h: int| 0 <= h < g && (x.device, x.year_month) == gv[h]
}

/// The series is for one of the first `t` sensors of `order`.
pub open spec fn sensor_before(x: SeriesModel, sv: Seq<Seq<char>>, order: Seq<usize>, t: int) -> bool {
    exists|u: int| 0 <= u < t && x.sensor == sv[order[u] as int]
}

/// A series stems from a kept row and holds the values of its group.
pub open spec fn series_fits(x: SeriesModel, rows: Seq<RowModel>, keep: Seq<bool>, sensors: Seq<Seq<char>>) -> bool {
    &&& exists|r: int| 0 <= r < rows.len() && keep[r] && row_key(rows[r]) == (x.device, x.year_month)
    &&& column_of(sensors, x.sensor) is Some
    &&& x.values == group_values(rows, keep, (x.device, x.year_month), column_of(sensors, x.sensor).unwrap())
}

/// The device, month and sensor of a series.
pub open spec fn series_key(x: SeriesModel) -> (Seq<char>, Seq<char>, Seq<char>) {
    (x.device, x.year_month, x.sensor)
}

/// The order on series is irreflexive, transitive, total up to equal keys,
/// and depends on the keys alone.
pub proof fn lemma_series_order(x: SeriesModel, y: SeriesModel, z: SeriesModel)
    ensures
        !series_lt(x, x),
        series_lt(x, y) && series_lt(y, z) ==> series_lt(x, z),
        series_key(x) == series_key(y) || series_lt(x, y) || series_lt(y, x),
        series_key(x) == series_key(y) ==> (series_lt(x, z) == series_lt(y, z) && series_lt(z, x)
            == series_lt(z, y)),
{
    let kx = (x.device, x.year_month);
    let ky = (y.device, y.year_month);
    let kz = (z.device, z.year_month);
    lemma_pair_order(kx, ky, kz);
    lemma_pair_order(ky, kx, kz);
    lemma_pair_order(kx, kz, ky);
    lemma_lt_irreflexive(x.sensor);
    lemma_lt_total(x.sensor, y.sensor);
    if seq_lt(x.sensor, y.sensor) && seq_lt(y.sensor, z.sensor) {
        lemma_lt_transitive(x.sensor, y.sensor, z.sensor);
    }
}

/// Two lists sorted strictly by series order that hold the same elements are equal.
pub proof fn lemma_sorted_same_elements(o1: Seq<SeriesModel>, o2: Seq<SeriesModel>)
    requires
        forall|i: int, j: int| 0 <= i < j < o1.len() ==> series_lt(o1[i], o1[j]),
        forall|i: int, j: int| 0 <= i < j < o2.len() ==> series_lt(o2[i], o2[j]),
        forall|i: int| 0 <= i < o1.len() ==> o2.contains(o1[i]),
        forall|j: int| 0 <= j < o2.len() ==> o1.contains(o2[j]),
    ensures
        o1 == o2,
    decreases o1.len(),
{
    if o1.len() == 0 {
        if o2.len() > 0 {
            assert(o1.contains(o2[0]));
        }
        assert(o1 =~= o2);
    } else {
        assert(o2.contains(o1[0]));
        let j = choose|j: int| 0 <= j < o2.len() && o2[j] == o1[0];
        assert(o1.contains(o2[0]));
        let i = choose|i: int| 0 <= i < o1.len() && o1[i] == o2[0];
        lemma_series_order(o1[0], o2[0], o1[0]);
        if j > 0 {
            assert(series_lt(o2[0], o1[0]));
            if i > 0 {
                assert(series_lt(o1[0], o2[0]));
            }
        }
        assert(o1[0] == o2[0]);
        let t1 = o1.drop_first();
        let t2 = o2.drop_first();
        assert forall|a: int| 0 <= a < t1.len() implies t2.contains(t1[a]) by {
            assert(o2.contains(o1[a + 1]));
            let b = choose|b: int| 0 <= b < o2.len() && o2[b] == o1[a + 1];
            lemma_series_order(o1[0], o1[a + 1], o1[0]);
            if b == 0 {
                assert(series_lt(o1[0], o1[a + 1]));
            }
            assert(t2[b - 1] == t1[a]);
        }
        assert forall|b: int| 0 <= b < t2.len() implies t1.contains(t2[b]) by {
            assert(o1.contains(o2[b + 1]));
            let a = choose|a: int| 0 <= a < o1.len() && o1[a] == o2[b + 1];
            lemma_series_order(o2[0], o2[b + 1], o2[0]);
            if a == 0 {
                assert(series_lt(o2[0], o2[b + 1]));
            }
            assert(t1[a - 1] == t2[b]);
        }
        lemma_sorted_same_elements(t1, t2);
        assert(o1 =~= seq![o1[0]] + t1);
        assert(o2 =~= seq![o2[0]] + t2);
    }
}

/// The aggregation of a set of rows is unique: two lists that both meet
/// `is_aggregation` for the same rows, flags and sensors are equal. Together
/// with the exact contract of `select_rows`, running the aggregation twice on
/// one chunk gives identical lists, in order and values.
pub proof fn lemma_aggregation_unique(
    o1: Seq<SeriesModel>,
    o2: Seq<SeriesModel>,
    rows: Seq<RowModel>,
    keep: Seq<bool>,
    sensors: Seq<Seq<char>>,
)
    requires
        is_aggregation(o1, rows, keep, sensors),
        is_aggregation(o2, rows, keep, sensors),
    ensures
        o1 == o2,
{
    assert forall|i: int| 0 <= i < o1.len() implies o2.contains(o1[i]) by {
        lemma_in_other(o1, o2, rows, keep, sensors, i);
    }
    assert forall|j: int| 0 <= j < o2.len() implies o1.contains(o2[j]) by {
        lemma_in_other(o2, o1, rows, keep, sensors, j);
    }
    lemma_sorted_same_elements(o1, o2);
}

proof fn lemma_in_other(
    o1: Seq<SeriesModel>,
    o2: Seq<SeriesModel>,
    rows: Seq<RowModel>,
    keep: Seq<bool>,
    sensors: Seq<Seq<char>>,
    i: int,
)
    requires
        is_aggregation(o1, rows, keep, sensors),
        is_aggregation(o2, rows, keep, sensors),
        0 <= i < o1.len(),
    ensures
        o2.contains(o1[i]),
{
    let x = o1[i];
    assert(series_fits(x, rows, keep, sensors));
    let r = choose|r: int| 0 <= r < rows.len() && keep[r] && row_key(rows[r]) == (x.device, x.year_month);
    lemma_column_bound(sensors, x.sensor);
    let si = column_of(sensors, x.sensor).unwrap() as int;
    assert(has_series(o2, row_key(rows[r]), sensors[si]));
    let j = choose|j: int| 0 <= j < o2.len() && (o2[j].device, o2[j].year_month) == row_key(rows[r]) && o2[j].sensor == sensors[si];
    assert(series_fits(o2[j], rows, keep, sensors));
    assert(o2[j] == x);
}

} // verus!
