//! Grouping of the data lines by device.
use crate::text::{chars_of, lines_of, split_on, string_of, text_lines, views};
use crate::types::{string_views, DeviceEntry, ProcessingConfig};
use vstd::prelude::*;

verus! {

/// ahash's `AHashMap`, held opaque; what one holds is given by `position_map`.
#[verifier::external_type_specification]
#[verifier::external_body]
#[verifier::reject_recursive_types(K)]
#[verifier::reject_recursive_types(V)]
#[verifier::reject_recursive_types(S)]
pub struct ExAHashMap<K, V, S>(ahash::AHashMap<K, V, S>);

/// ahash's `RandomState`, the hasher of an `AHashMap`, held opaque.
#[verifier::external_type_specification]
#[verifier::external_body]
pub struct ExRandomState(ahash::RandomState);

/// A hash map from device ids to positions.
pub type PositionMap = ahash::AHashMap<String, usize>;

/// What a `PositionMap` holds.
pub uninterp spec fn position_map(m: PositionMap) -> Map<Seq<char>, usize>;

/// Relies on `AHashMap::new`: a map that holds nothing.
#[verifier::external_body]
fn new_positions() -> (r: PositionMap)
    ensures
        position_map(r).dom() == Set::<Seq<char>>::empty(),
{
    ahash::AHashMap::new()
}

/// Relies on `AHashMap::get`: the value stored under `k`, if any.
#[verifier::external_body]
fn position_of(m: &PositionMap, k: &str) -> (r: Option<usize>)
    ensures
        r == (if position_map(*m).contains_key(k@) {
            Some(position_map(*m)[k@])
        } else {
            None::<usize>
        }),
{
    m.get(k).copied()
}

/// Relies on `AHashMap::insert`: afterwards `k` maps to `v`, other keys unchanged.
#[verifier::external_body]
fn record_position(m: &mut PositionMap, k: String, v: usize)
    ensures
        position_map(*final(m)) == position_map(*old(m)).insert(k@, v),
{
    m.insert(k, v);
}

/// A device index in its abstract form: device ids with their lines, in the
/// order in which each device was first seen.
pub type IndexModel = Seq<(Seq<char>, Seq<Seq<char>>)>;

/// A position of the bucket of `dev`, when there is one.
pub open spec fn bucket_of(es: IndexModel, dev: Seq<char>) -> int {
    choose|p: int| 0 <= p < es.len() && es[p].0 == dev
}

/// Adds `line` to the bucket of `dev`, opening a bucket at the end if `dev` has none.
pub open spec fn add_line(es: IndexModel, dev: Seq<char>, line: Seq<char>) -> IndexModel {
    if exists|p: int| 0 <= p < es.len() && es[p].0 == dev {
        let p = bucket_of(es, dev);
        es.update(p, (dev, es[p].1.push(line)))
    } else {
        es.push((dev, seq![line]))
    }
}

/// The field at zero-based position `idx` of `l`, if `l` has that many fields.
pub open spec fn field_at_spec(l: Seq<char>, d: char, idx: nat) -> Option<Seq<char>> {
    if idx < split_on(l, d).len() {
        Some(split_on(l, d)[idx as int])
    } else {
        None
    }
}

/// The device of a line: its device field when that field exists and is not empty.
pub open spec fn line_device(l: Seq<char>, d: char, idx: nat) -> Option<Seq<char>> {
    match field_at_spec(l, d, idx) {
        Some(f) => if f.len() > 0 {
            Some(f)
        } else {
            None
        },
        None => None,
    }
}

/// Groups the lines by device, dropping those without a device.
pub open spec fn group_lines(ls: Seq<Seq<char>>, d: char, idx: nat) -> IndexModel
    decreases ls.len(),
{
    if ls.len() == 0 {
        Seq::empty()
    } else {
        let g = group_lines(ls.drop_last(), d, idx);
        match line_device(ls.last(), d, idx) {
            Some(dev) => add_line(g, dev, ls.last()),
            None => g,
        }
    }
}

/// Device ids appear at most once.
pub open spec fn unique_devices(es: IndexModel) -> bool {
    forall|p: int, q: int| 0 <= p < es.len() && 0 <= q < es.len() && es[p].0 == es[q].0 ==> p == q
}

/// Splitting a longer prefix keeps the pieces completed in a shorter one.
pub proof fn lemma_split_extends(s: Seq<char>, d: char, m: int, m2: int)
    requires
        0 <= m <= m2 <= s.len(),
    ensures
        split_on(s.take(m), d).len() <= split_on(s.take(m2), d).len(),
        forall|k: int|
            0 <= k < split_on(s.take(m), d).len() - 1 ==> split_on(s.take(m2), d)[k]
                == split_on(s.take(m), d)[k],
    decreases m2 - m,
{
    if m2 > m {
        lemma_split_extends(s, d, m, m2 - 1);
        let t = s.take(m2);
        assert(t.drop_last() == s.take(m2 - 1));
        crate::text::lemma_split_nonempty(s.take(m2 - 1), d);
    }
}

/// The field at zero-based position `idx` of `line`, found by counting
/// delimiters up to it.
pub fn field_at(line: &[char], d: char, idx: usize) -> (r: Option<Vec<char>>)
    ensures
        r matches Some(f) ==> field_at_spec(line@, d, idx as nat) == Some(f@),
        r is None ==> field_at_spec(line@, d, idx as nat) is None,
{
    let mut col_start: usize = 0;
    let mut col_idx: usize = 0;
    let mut i: usize = 0;
    while i < line.len()
        invariant
            i <= line@.len(),
            col_start <= i,
            col_idx <= idx,
            split_on(line@.take(i as int), d).len() == col_idx + 1,
            split_on(line@.take(i as int), d).last() == line@.subrange(col_start as int, i as int),
        decreases line.len() - i,
    {
        proof {
            assert(line@.take(i + 1).drop_last() == line@.take(i as int));
            crate::text::lemma_split_nonempty(line@.take(i as int), d);
        }
        if line[i] == d {
            if col_idx == idx {
                let f = crate::text::copy_range(line, col_start, i);
                proof {
                    lemma_split_extends(line@, d, i + 1, line@.len() as int);
                    assert(line@.take(line@.len() as int) == line@);
                }
                return Some(f);
            }
            col_idx = col_idx + 1;
            col_start = i + 1;
        } else {
            assert(line@.subrange(col_start as int, i + 1) == line@.subrange(
                col_start as int,
                i as int,
            ).push(line@[i as int]));
        }
        i = i + 1;
    }
    assert(line@.take(line@.len() as int) == line@);
    if col_idx == idx {
        Some(crate::text::copy_range(line, col_start, line.len()))
    } else {
        None
    }
}

/// The lines of a data body grouped by device, each device's lines in file order.
pub struct DeviceIndex {
    entries: Vec<DeviceEntry>,
    positions: PositionMap,
}

impl View for DeviceIndex {
    type V = IndexModel;

    closed spec fn view(&self) -> IndexModel {
        self.entries@.map_values(|e: DeviceEntry| e.model())
    }
}

impl DeviceIndex {
    /// Device ids are unique, every bucket holds a line, and the hash map
    /// gives each device its position.
    pub closed spec fn wf(self) -> bool {
        let es = self.entries@.map_values(|e: DeviceEntry| e.model());
        &&& unique_devices(es)
        &&& forall|p: int| 0 <= p < es.len() ==> es[p].1.len() > 0
        &&& forall|p: int| 0 <= p < es.len() ==> position_map(self.positions).contains_key(es[p].0)
            && position_map(self.positions)[es[p].0] == p
        &&& forall|k: Seq<char>| position_map(self.positions).contains_key(k)
            ==> exists|p: int| 0 <= p < es.len() && es[p].0 == k
    }

    /// What a well-formed index promises of its contents.
    pub proof fn lemma_valid(self)
        requires
            self.wf(),
        ensures
            unique_devices(self@),
            forall|p: int| 0 <= p < self@.len() ==> self@[p].1.len() > 0,
    {
    }

    /// An index with no device.
    pub fn new() -> (r: DeviceIndex)
        ensures
            r.wf(),
            r@ == Seq::<(Seq<char>, Seq<Seq<char>>)>::empty(),
    {
        let r = DeviceIndex { entries: Vec::new(), positions: new_positions() };
        assert(r@ =~= Seq::<(Seq<char>, Seq<Seq<char>>)>::empty());
        r
    }

    /// Appends `line` to the bucket of `device`.
    pub fn push_line(&mut self, device: String, line: String)
        requires
            old(self).wf(),
        ensures
            final(self).wf(),
            final(self)@ == add_line(old(self)@, device@, line@),
    {
        let ghost es = self@;
        let ghost old_entries = self.entries@;
        let ghost old_map = position_map(self.positions);
        match position_of(&self.positions, device.as_str()) {
            Some(p) => {
                proof {
                    let q = bucket_of(es, device@);
                    assert(es[p as int].0 == old_entries[p as int].device_id@);
                    assert(0 <= q < es.len() && es[q].0 == device@);
                    assert(q == p);
                }
                self.entries[p].lines.push(line);
                proof {
                    let e = self.entries@[p as int];
                    assert(string_views(e.lines@) =~= string_views(old_entries[p as int].lines@).push(line@));
                    assert(self@[p as int] == (device@, es[p as int].1.push(line@)));
                    assert(self@ =~= add_line(es, device@, line@));
                    assert(forall|q: int| 0 <= q < es.len() ==> self@[q].0 == es[q].0);
                    assert(unique_devices(self@));
                    assert(forall|q: int| 0 <= q < self@.len() ==> self@[q].1.len() > 0);
                }
            },
            None => {
                proof {
                    assert forall|q: int| 0 <= q < es.len() implies es[q].0 != device@ by {
                        assert(old_map.contains_key(es[q].0));
                    }
                }
                let p = self.entries.len();
                record_position(&mut self.positions, device.clone(), p);
                let ghost dev = device@;
                self.entries.push(DeviceEntry { device_id: device, lines: vec![line] });
                proof {
                    let e = self.entries@[p as int];
                    assert(string_views(e.lines@) =~= seq![line@]);
                    assert(self@ =~= add_line(es, dev, line@));
                    let m = position_map(self.positions);
                    assert(forall|q: int| 0 <= q < es.len() ==> self@[q] == es[q]);
                    assert(unique_devices(self@));
                    assert(forall|q: int| 0 <= q < self@.len() ==> self@[q].1.len() > 0);
                    assert(forall|q: int| 0 <= q < self@.len() ==> m.contains_key(self@[q].0) && m[self@[q].0] == q);
                    assert forall|k: Seq<char>| m.contains_key(k) implies exists|q: int|
                        0 <= q < self@.len() && self@[q].0 == k by {
                        if k == dev {
                            assert(self@[p as int].0 == k);
                        } else {
                            let q = choose|q: int| 0 <= q < es.len() && es[q].0 == k;
                            assert(self@[q].0 == k);
                        }
                    }
                }
            },
        }
    }
}

/// The lines of bucket `dev`, if the index has one.
pub open spec fn lookup(es: IndexModel, dev: Seq<char>) -> Option<Seq<Seq<char>>> {
    if exists|p: int| 0 <= p < es.len() && es[p].0 == dev {
        Some(es[choose|p: int| 0 <= p < es.len() && es[p].0 == dev].1)
    } else {
        None
    }
}

impl DeviceIndex {
    /// Number of distinct devices.
    pub fn len(&self) -> (r: usize)
        ensures
            r == self@.len(),
    {
        self.entries.len()
    }

    /// Whether no device was seen.
    pub fn is_empty(&self) -> (r: bool)
        ensures
            r == (self@.len() == 0),
    {
        self.entries.len() == 0
    }

    /// The buckets, in the order in which their devices were first seen.
    pub fn entries(&self) -> (r: &Vec<DeviceEntry>)
        ensures
            r@.map_values(|e: DeviceEntry| e.model()) == self@,
    {
        &self.entries
    }

    /// The lines of `device`, if it has a bucket.
    pub fn get(&self, device: &str) -> (r: Option<&Vec<String>>)
        requires
            self.wf(),
        ensures
            r matches Some(v) ==> lookup(self@, device@) == Some(string_views(v@)),
            r is None ==> lookup(self@, device@) is None,
    {
        match position_of(&self.positions, device) {
            Some(p) => {
                proof {
                    assert(self@[p as int].0 == device@);
                    let q = choose|q: int| 0 <= q < self@.len() && self@[q].0 == device@;
                    assert(q == p);
                }
                Some(&self.entries[p].lines)
            },
            None => {
                proof {
                    assert forall|q: int| 0 <= q < self@.len() implies self@[q].0 != device@ by {
                        assert(position_map(self.positions).contains_key(self@[q].0));
                    }
                }
                None
            },
        }
    }

    /// Whether `device` has a bucket.
    pub fn contains_key(&self, device: &str) -> (r: bool)
        requires
            self.wf(),
        ensures
            r == lookup(self@, device@) is Some,
    {
        self.get(device).is_some()
    }
}

/// Groups the lines of `data` by the field at `device_column_index`; a line
/// without that field, or whose field is empty, is left out.
pub fn build_device_hash_table(
    data: &str,
    device_column_index: usize,
    _header: &str,
    config: &ProcessingConfig,
) -> (r: DeviceIndex)
    ensures
        r.wf(),
        r@ == group_lines(text_lines(data@), config.delimiter, device_column_index as nat),
{
    let d = config.delimiter;
    let cs = chars_of(data);
    let lines = lines_of(cs.as_slice());
    let ghost ls = views(lines@);
    let mut index = DeviceIndex::new();
    let mut k: usize = 0;
    while k < lines.len()
        invariant
            k <= lines@.len(),
            ls == views(lines@),
            ls == text_lines(data@),
            index.wf(),
            index@ == group_lines(ls.take(k as int), d, device_column_index as nat),
        decreases lines.len() - k,
    {
        let l = &lines[k];
        proof {
            assert(ls.take(k + 1).drop_last() =~= ls.take(k as int));
            assert(ls.take(k + 1).last() == l@);
        }
        match field_at(l.as_slice(), d, device_column_index) {
            Some(f) => {
                if f.len() > 0 {
                    index.push_line(string_of(f.as_slice()), string_of(l.as_slice()));
                }
            },
            None => {},
        }
        k = k + 1;
    }
    assert(ls.take(k as int) =~= ls);
    index
}

} // verus!
