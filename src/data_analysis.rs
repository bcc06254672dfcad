//! The per-chunk aggregation: row parsing and filtering, date windowing, and
//! grouping of sensor readings by device, month and sensor.
use crate::text::{
    chars_of, contains_sub, has_sub, lines_of, same_chars, split_chars, split_on, string_of,
    text_lines, views,
};
use crate::file_mapping::{trim_text, trimmed};
use crate::types::{string_views, CsvChunk};
use chrono::Datelike;
use vstd::prelude::*;

verus! {

/// The year, month and day that chrono reads from `s` with the format
/// `%Y-%m-%d`, or nothing when `s` is no such date.
pub uninterp spec fn parsed_date(s: Seq<char>) -> Option<(i32, u32, u32)>;

/// Relies on chrono's `NaiveDate::parse_from_str` with the format `%Y-%m-%d`,
/// and on `Datelike`, whose month is documented to lie in 1..=12 and whose
/// day in 1..=31.
#[verifier::external_body]
fn parse_date(s: &str) -> (r: Option<(i32, u32, u32)>)
    ensures
        r == parsed_date(s@),
        r matches Some(t) ==> 1 <= t.1 <= 12 && 1 <= t.2 <= 31,
{
    match chrono::NaiveDate::parse_from_str(s, "%Y-%m-%d") {
        Ok(date) => Some((date.year(), date.month(), date.day())),
        Err(_) => None,
    }
}

/// The sensor columns that are aggregated, in this order.
pub open spec fn sensor_names() -> Seq<Seq<char>> {
    seq!["temperatura"@, "umidade"@, "luminosidade"@, "ruido"@, "eco2"@, "etvoc"@]
}

/// Columns that are not used and may hold empty values.
pub open spec fn unused_column(name: Seq<char>) -> bool {
    name == "id"@ || name == "latitude"@ || name == "longitude"@
}

/// The first position of `name` among the column names.
pub open spec fn column_of(cols: Seq<Seq<char>>, name: Seq<char>) -> Option<nat>
    decreases cols.len(),
{
    if cols.len() == 0 {
        None
    } else {
        match column_of(cols.drop_last(), name) {
            Some(i) => Some(i),
            None => if cols.last() == name {
                Some((cols.len() - 1) as nat)
            } else {
                None
            },
        }
    }
}

/// The sensor columns of the header, in the order of `sensor_names`.
pub open spec fn present_sensors_upto(cols: Seq<Seq<char>>, k: nat) -> Seq<Seq<char>>
    decreases k,
{
    if k == 0 {
        Seq::empty()
    } else {
        let p = present_sensors_upto(cols, (k - 1) as nat);
        if column_of(cols, sensor_names()[k - 1]) is Some {
            p.push(sensor_names()[k - 1])
        } else {
            p
        }
    }
}

/// The sensor columns present in the header.
pub open spec fn present_sensors(cols: Seq<Seq<char>>) -> Seq<Seq<char>> {
    present_sensors_upto(cols, 6)
}

/// The first field opens a JSON object or array.
pub open spec fn json_like(fields: Seq<Seq<char>>) -> bool {
    fields.len() > 0 && fields[0].len() > 0 && (fields[0][0] == '{' || fields[0][0] == '[')
}

/// Some field holds a JSON key of the upstream export.
pub open spec fn has_marker(fields: Seq<Seq<char>>) -> bool {
    exists|i: int|
        0 <= i < fields.len() && (contains_sub(fields[i], "device_id"@) || contains_sub(
            fields[i],
            "device_name"@,
        ) || contains_sub(fields[i], "variable"@))
}

/// Some used column is empty.
pub open spec fn has_missing(cols: Seq<Seq<char>>, fields: Seq<Seq<char>>) -> bool {
    exists|c: int| 0 <= c < cols.len() && !unused_column(cols[c]) && fields[c].len() == 0
}

/// The date lies on or after 2024-03-01.
pub open spec fn in_window(y: int, m: int, d: int) -> bool {
    y > 2024 || (y == 2024 && (m > 3 || (m == 3 && d >= 1)))
}

/// A decimal digit.
pub open spec fn digit(n: nat) -> char {
    if n == 0 { '0' }
    else if n == 1 { '1' }
    else if n == 2 { '2' }
    else if n == 3 { '3' }
    else if n == 4 { '4' }
    else if n == 5 { '5' }
    else if n == 6 { '6' }
    else if n == 7 { '7' }
    else if n == 8 { '8' }
    else { '9' }
}

/// The decimal digits of `n`, without leading zeros.
pub open spec fn decimal(n: nat) -> Seq<char>
    decreases n,
{
    if n < 10 {
        seq![digit(n)]
    } else {
        decimal(n / 10).push(digit(n % 10))
    }
}

/// `YYYY-MM` as chrono writes `%Y-%m`: the year in four digits, with a `+`
/// before a year of five digits or more, and the month in two.
pub open spec fn year_month_text(y: nat, m: nat) -> Seq<char> {
    let year = if y < 10000 {
        seq![digit(y / 1000), digit((y / 100) % 10), digit((y / 10) % 10), digit(y % 10)]
    } else {
        seq!['+'] + decimal(y)
    };
    year + seq!['-', digit(m / 10), digit(m % 10)]
}

/// A data row that passed the selection.
pub struct RowModel {
    pub fields: Seq<Seq<char>>,
    pub device: Seq<char>,
    pub year_month: Seq<char>,
    pub readings: Seq<Seq<char>>,
}

/// What a data line of a chunk with these columns yields: nothing when it is
/// malformed, filtered out, undated or before the window.
pub open spec fn selected_row(cols: Seq<Seq<char>>, l: Seq<char>, d: char) -> Option<RowModel> {
    let f = split_on(l, d);
    if f.len() != cols.len() || json_like(f) || has_marker(f) || has_missing(cols, f) {
        None
    } else {
        match (column_of(cols, "device"@), column_of(cols, "data"@)) {
            (Some(dc), Some(tc)) => match parsed_date(split_on(f[tc as int], ' ')[0]) {
                Some(t) => if in_window(t.0 as int, t.1 as int, t.2 as int) {
                    Some(
                        RowModel {
                            fields: f,
                            device: f[dc as int],
                            year_month: year_month_text(t.0 as nat, t.1 as nat),
                            readings: present_sensors(cols).map_values(
                                |s: Seq<char>| f[column_of(cols, s).unwrap() as int],
                            ),
                        },
                    )
                } else {
                    None
                },
                None => None,
            },
            _ => None,
        }
    }
}

/// The rows selected from the lines, in order.
pub open spec fn selected_rows(cols: Seq<Seq<char>>, ls: Seq<Seq<char>>, d: char) -> Seq<RowModel>
    decreases ls.len(),
{
    if ls.len() == 0 {
        Seq::empty()
    } else {
        let r = selected_rows(cols, ls.drop_last(), d);
        match selected_row(cols, ls.last(), d) {
            Some(row) => r.push(row),
            None => r,
        }
    }
}

/// The rows of a chunk that go on to aggregation; none when it has no sensor
/// column.
pub open spec fn chunk_rows(header: Seq<char>, data: Seq<char>, d: char) -> Seq<RowModel> {
    let cols = split_on(header, d);
    if present_sensors(cols).len() == 0 {
        Seq::empty()
    } else {
        selected_rows(cols, text_lines(data), d)
    }
}

/// A selected data row: its fields, device, `YYYY-MM` month, and the values
/// of the sensor columns, in the order of the chunk's sensors.
#[derive(Debug, Clone)]
pub struct SelectedRow {
    pub fields: Vec<String>,
    pub device: String,
    pub year_month: String,
    pub readings: Vec<String>,
}

impl SelectedRow {
    /// The row as text.
    pub open spec fn model(self) -> RowModel {
        RowModel {
            fields: string_views(self.fields@),
            device: self.device@,
            year_month: self.year_month@,
            readings: string_views(self.readings@),
        }
    }
}

/// The models of a sequence of rows.
pub open spec fn row_models(rows: Seq<SelectedRow>) -> Seq<RowModel> {
    rows.map_values(|r: SelectedRow| r.model())
}

/// The rows of a chunk that go on to aggregation, its sensor columns, and
/// the number of data lines the chunk declared (none for an empty chunk).
#[derive(Debug, Clone)]
pub struct ChunkRows {
    pub sensors: Vec<String>,
    pub rows: Vec<SelectedRow>,
    pub total_lines_processed: usize,
}

/// Every row holds one reading per sensor column.
pub open spec fn rows_consistent(cr: ChunkRows) -> bool {
    forall|r: int| 0 <= r < cr.rows@.len() ==> (#[trigger] cr.rows@[r]).readings@.len() == cr.sensors@.len()
}

/// The strings holding these character sequences.
fn strings_of(v: &Vec<Vec<char>>) -> (r: Vec<String>)
    ensures
        string_views(r@) == views(v@),
{
    let mut r: Vec<String> = Vec::new();
    let mut i: usize = 0;
    while i < v.len()
        invariant
            i <= v@.len(),
            string_views(r@) == views(v@).take(i as int),
        decreases v.len() - i,
    {
        let s = string_of(v[i].as_slice());
        let ghost r0 = r@;
        r.push(s);
        assert(string_views(r@) =~= string_views(r0).push(s@));
        assert(views(v@).take(i + 1) =~= views(v@).take(i as int).push(v@[i as int]@));
        i = i + 1;
    }
    assert(views(v@).take(i as int) =~= views(v@));
    r
}

/// The first position of `name` among the column names.
pub(crate) fn find_column(cols: &Vec<Vec<char>>, name: &[char]) -> (r: Option<usize>)
    ensures
        r matches Some(i) ==> column_of(views(cols@), name@) == Some(i as nat),
        r is None ==> column_of(views(cols@), name@) is None,
{
    let ghost cs = views(cols@);
    let mut i: usize = 0;
    while i < cols.len()
        invariant
            i <= cols@.len(),
            cs == views(cols@),
            column_of(cs.take(i as int), name@) is None,
        decreases cols.len() - i,
    {
        assert(cs.take(i + 1).drop_last() =~= cs.take(i as int));
        if same_chars(cols[i].as_slice(), name) {
            proof {
                lemma_column_prefix(cs, name@, i + 1);
            }
            return Some(i);
        }
        i = i + 1;
    }
    assert(cs.take(i as int) =~= cs);
    None
}

proof fn lemma_column_prefix(cs: Seq<Seq<char>>, name: Seq<char>, k: int)
    requires
        0 <= k <= cs.len(),
        column_of(cs.take(k), name) is Some,
    ensures
        column_of(cs, name) == column_of(cs.take(k), name),
    decreases cs.len() - k,
{
    if k < cs.len() {
        assert(cs.take(k + 1).drop_last() =~= cs.take(k));
        lemma_column_prefix(cs, name, k + 1);
    } else {
        assert(cs.take(k) =~= cs);
    }
}

/// The sensor column names, in the order of `sensor_names`.
fn sensor_list() -> (r: Vec<Vec<char>>)
    ensures
        views(r@) == sensor_names(),
{
    let r = vec![
        chars_of("temperatura"),
        chars_of("umidade"),
        chars_of("luminosidade"),
        chars_of("ruido"),
        chars_of("eco2"),
        chars_of("etvoc"),
    ];
    assert(views(r@) =~= sensor_names());
    r
}

/// The digit character of `n`.
fn digit_char(n: u32) -> (r: char)
    requires
        n < 10,
    ensures
        r == digit(n as nat),
{
    if n == 0 { '0' }
    else if n == 1 { '1' }
    else if n == 2 { '2' }
    else if n == 3 { '3' }
    else if n == 4 { '4' }
    else if n == 5 { '5' }
    else if n == 6 { '6' }
    else if n == 7 { '7' }
    else if n == 8 { '8' }
    else { '9' }
}

/// Appends the decimal digits of `n`.
fn push_decimal(buf: &mut Vec<char>, n: u32)
    ensures
        final(buf)@ == old(buf)@ + decimal(n as nat),
    decreases n,
{
    if n >= 10 {
        push_decimal(buf, n / 10);
        buf.push(digit_char(n % 10));
        assert(final(buf)@ =~= old(buf)@ + decimal(n as nat));
    } else {
        buf.push(digit_char(n));
        assert(final(buf)@ =~= old(buf)@ + decimal(n as nat));
    }
}

/// The `YYYY-MM` text of a month.
fn year_month_chars(y: u32, m: u32) -> (r: Vec<char>)
    requires
        1 <= m <= 12,
    ensures
        r@ == year_month_text(y as nat, m as nat),
{
    let mut r: Vec<char> = Vec::new();
    if y < 10000 {
        r.push(digit_char(y / 1000));
        r.push(digit_char((y / 100) % 10));
        r.push(digit_char((y / 10) % 10));
        r.push(digit_char(y % 10));
    } else {
        r.push('+');
        push_decimal(&mut r, y);
    }
    r.push('-');
    r.push(digit_char(m / 10));
    r.push(digit_char(m % 10));
    assert(r@ =~= year_month_text(y as nat, m as nat));
    r
}

/// The column layout of a chunk, worked out once for all its lines.
struct Layout {
    cols: Vec<Vec<char>>,
    unused: Vec<bool>,
    markers: Vec<Vec<char>>,
    device_col: usize,
    date_col: usize,
    sensor_cols: Vec<usize>,
}

impl Layout {
    spec fn valid(self) -> bool {
        let cs = views(self.cols@);
        &&& self.unused@.len() == cs.len()
        &&& forall|c: int| 0 <= c < cs.len() ==> self.unused@[c] == unused_column(cs[c])
        &&& views(self.markers@) == seq!["device_id"@, "device_name"@, "variable"@]
        &&& column_of(cs, "device"@) == Some(self.device_col as nat)
        &&& column_of(cs, "data"@) == Some(self.date_col as nat)
        &&& self.sensor_cols@.len() == present_sensors(cs).len()
        &&& forall|i: int| 0 <= i < self.sensor_cols@.len() ==> column_of(cs, present_sensors(cs)[i])
            == Some(self.sensor_cols@[i] as nat)
    }
}

/// A found column lies within the header and carries the name.
pub proof fn lemma_column_bound(cs: Seq<Seq<char>>, name: Seq<char>)
    ensures
        column_of(cs, name) matches Some(i) ==> i < cs.len() && cs[i as int] == name,
    decreases cs.len(),
{
    if cs.len() > 0 {
        lemma_column_bound(cs.drop_last(), name);
    }
}

/// Every column name is found.
pub proof fn lemma_column_found(cs: Seq<Seq<char>>, i: int)
    requires
        0 <= i < cs.len(),
    ensures
        column_of(cs, cs[i]) is Some,
    decreases cs.len(),
{
    if i < cs.len() - 1 {
        lemma_column_found(cs.drop_last(), i);
    }
}

/// Whether some field holds one of the markers.
fn find_marker(fields: &Vec<Vec<char>>, markers: &Vec<Vec<char>>) -> (r: bool)
    requires
        views(markers@) == seq!["device_id"@, "device_name"@, "variable"@],
    ensures
        r == has_marker(views(fields@)),
{
    let ghost fs = views(fields@);
    let mut i: usize = 0;
    while i < fields.len()
        invariant
            i <= fields@.len(),
            fs == views(fields@),
            views(markers@) == seq!["device_id"@, "device_name"@, "variable"@],
            forall|k: int| 0 <= k < i ==> !(contains_sub(fs[k], "device_id"@) || contains_sub(
                fs[k],
                "device_name"@,
            ) || contains_sub(fs[k], "variable"@)),
        decreases fields.len() - i,
    {
        let f = fields[i].as_slice();
        assert(views(markers@).len() == 3);
        assert(views(markers@)[0] == markers@[0]@ && views(markers@)[1] == markers@[1]@
            && views(markers@)[2] == markers@[2]@);
        assert(markers@[0]@ == "device_id"@ && markers@[1]@ == "device_name"@ && markers@[2]@
            == "variable"@);
        if has_sub(f, markers[0].as_slice()) || has_sub(f, markers[1].as_slice()) || has_sub(
            f,
            markers[2].as_slice(),
        ) {
            assert(fs[i as int] == f@);
            return true;
        }
        i = i + 1;
    }
    false
}

/// Whether some used column of the row is empty.
fn find_missing(fields: &Vec<Vec<char>>, layout: &Layout) -> (r: bool)
    requires
        layout.valid(),
        fields@.len() == layout.cols@.len(),
    ensures
        r == has_missing(views(layout.cols@), views(fields@)),
{
    let mut c: usize = 0;
    while c < fields.len()
        invariant
            c <= fields@.len() == layout.cols@.len(),
            layout.valid(),
            forall|k: int| 0 <= k < c ==> !(!unused_column(views(layout.cols@)[k]) && views(fields@)[k].len() == 0),
        decreases fields.len() - c,
    {
        if !layout.unused[c] && fields[c].len() == 0 {
            return true;
        }
        c = c + 1;
    }
    false
}

/// What one data line yields.
fn select_line(layout: &Layout, line: &[char], d: char) -> (r: Option<SelectedRow>)
    requires
        layout.valid(),
    ensures
        r matches Some(row) ==> selected_row(views(layout.cols@), line@, d) == Some(row.model()),
        r is None ==> selected_row(views(layout.cols@), line@, d) is None,
{
    let ghost cs = views(layout.cols@);
    let fields = split_chars(line, d);
    proof {
        crate::text::lemma_split_nonempty(line@, d);
    }
    let ghost fs = views(fields@);
    if fields.len() != layout.cols.len() {
        return None;
    }
    let first = &fields[0];
    if first.len() > 0 && (first[0] == '{' || first[0] == '[') {
        return None;
    }
    if find_marker(&fields, &layout.markers) {
        return None;
    }
    if find_missing(&fields, layout) {
        return None;
    }
    proof {
        lemma_column_bound(cs, "device"@);
        lemma_column_bound(cs, "data"@);
    }
    let pieces = split_chars(fields[layout.date_col].as_slice(), ' ');
    proof {
        crate::text::lemma_split_nonempty(fs[layout.date_col as int], ' ');
    }
    let date_text = string_of(pieces[0].as_slice());
    match parse_date(date_text.as_str()) {
        Some((y, m, day)) => {
            if y > 2024 || (y == 2024 && (m > 3 || (m == 3 && day >= 1))) {
                let ym = year_month_chars(y as u32, m);
                let mut readings: Vec<String> = Vec::new();
                let mut i: usize = 0;
                while i < layout.sensor_cols.len()
                    invariant
                        layout.valid(),
                        cs == views(layout.cols@),
                        fs == views(fields@),
                        fields@.len() == cs.len(),
                        i <= layout.sensor_cols@.len(),
                        string_views(readings@) == present_sensors(cs).take(i as int).map_values(
                            |s: Seq<char>| fs[column_of(cs, s).unwrap() as int],
                        ),
                    decreases layout.sensor_cols.len() - i,
                {
                    let c = layout.sensor_cols[i];
                    proof {
                        lemma_column_bound(cs, present_sensors(cs)[i as int]);
                    }
                    let v = string_of(fields[c].as_slice());
                    let ghost r0 = readings@;
                    readings.push(v);
                    assert(string_views(readings@) =~= string_views(r0).push(v@));
                    assert(present_sensors(cs).take(i + 1).map_values(
                        |s: Seq<char>| fs[column_of(cs, s).unwrap() as int],
                    ) =~= present_sensors(cs).take(i as int).map_values(
                        |s: Seq<char>| fs[column_of(cs, s).unwrap() as int],
                    ).push(fs[c as int]));
                    i = i + 1;
                }
                assert(present_sensors(cs).take(i as int) =~= present_sensors(cs));
                let row = SelectedRow {
                    fields: strings_of(&fields),
                    device: string_of(fields[layout.device_col].as_slice()),
                    year_month: string_of(ym.as_slice()),
                    readings,
                };
                Some(row)
            } else {
                None
            }
        },
        None => None,
    }
}

proof fn lemma_no_rows_without_columns(cols: Seq<Seq<char>>, ls: Seq<Seq<char>>, d: char)
    requires
        column_of(cols, "device"@) is None || column_of(cols, "data"@) is None,
    ensures
        selected_rows(cols, ls, d).len() == 0,
    decreases ls.len(),
{
    if ls.len() > 0 {
        lemma_no_rows_without_columns(cols, ls.drop_last(), d);
    }
}

/// Splits a chunk into rows and keeps those that go on to aggregation: rows
/// whose field count matches the header, that are not JSON-like, hold no
/// export key, have no empty used column, and carry a date on or after
/// 2024-03-01. With no `device` or `data` column, or no sensor column, no row
/// is kept.
pub fn select_rows(chunk: &CsvChunk, delimiter: char) -> (r: ChunkRows)
    ensures
        string_views(r.sensors@) == present_sensors(split_on(chunk.header@, delimiter)),
        row_models(r.rows@) == chunk_rows(chunk.header@, chunk.data@, delimiter),
        rows_consistent(r),
        r.total_lines_processed == if chunk.data@.len() == 0 {
            0
        } else {
            chunk.line_count
        },
{
    let d = delimiter;
    let total_lines_processed = if chunk.data.as_str().is_empty() {
        0
    } else {
        chunk.line_count
    };
    let hc = chars_of(chunk.header.as_str());
    let cols = split_chars(hc.as_slice(), d);
    let ghost cs = views(cols@);
    let names = sensor_list();
    let mut sensor_names_found: Vec<Vec<char>> = Vec::new();
    let mut sensor_cols: Vec<usize> = Vec::new();
    let mut k: usize = 0;
    assert(views(names@).len() == 6);
    while k < names.len()
        invariant
            views(names@) == sensor_names(),
            names@.len() == 6,
            cs == views(cols@),
            k <= 6,
            views(sensor_names_found@) == present_sensors_upto(cs, k as nat),
            sensor_cols@.len() == sensor_names_found@.len(),
            forall|i: int| 0 <= i < sensor_cols@.len() ==> column_of(cs, present_sensors_upto(cs, k as nat)[i])
                == Some(sensor_cols@[i] as nat),
        decreases names.len() - k,
    {
        assert(views(names@)[k as int] == names@[k as int]@);
        match find_column(&cols, names[k].as_slice()) {
            Some(c) => {
                let ghost v0 = sensor_names_found@;
                let ghost c0 = sensor_cols@;
                sensor_names_found.push(copy_chars(&names[k]));
                sensor_cols.push(c);
                assert(views(sensor_names_found@) =~= views(v0).push(names@[k as int]@));
                assert(forall|i: int| 0 <= i < c0.len() ==> sensor_cols@[i] == c0[i]);
            },
            None => {},
        }
        k = k + 1;
    }
    let sensors = strings_of(&sensor_names_found);
    assert(present_sensors(cs) == present_sensors_upto(cs, 6));
    assert(string_views(sensors@).len() == sensors@.len());
    let mut rows: Vec<SelectedRow> = Vec::new();
    if sensors.len() == 0 {
        assert(row_models(rows@) =~= Seq::<RowModel>::empty());
        return ChunkRows { sensors, rows, total_lines_processed };
    }
    let lines = lines_of(chars_of(chunk.data.as_str()).as_slice());
    let ghost ls = views(lines@);
    let device_col = find_column(&cols, chars_of("device").as_slice());
    let date_col = find_column(&cols, chars_of("data").as_slice());
    let (device_col, date_col) = match (device_col, date_col) {
        (Some(a), Some(b)) => (a, b),
        _ => {
            proof {
                lemma_no_rows_without_columns(cs, ls, d);
            }
            assert(row_models(rows@) =~= Seq::<RowModel>::empty());
            return ChunkRows { sensors, rows, total_lines_processed };
        },
    };
    let id_name = chars_of("id");
    let lat_name = chars_of("latitude");
    let lon_name = chars_of("longitude");
    let mut unused: Vec<bool> = Vec::new();
    let mut c: usize = 0;
    while c < cols.len()
        invariant
            c <= cols@.len(),
            cs == views(cols@),
            id_name@ == "id"@ && lat_name@ == "latitude"@ && lon_name@ == "longitude"@,
            unused@.len() == c,
            forall|i: int| 0 <= i < c ==> unused@[i] == unused_column(cs[i]),
        decreases cols.len() - c,
    {
        let col = cols[c].as_slice();
        let u = same_chars(col, id_name.as_slice()) || same_chars(col, lat_name.as_slice())
            || same_chars(col, lon_name.as_slice());
        unused.push(u);
        c = c + 1;
    }
    let markers = vec![chars_of("device_id"), chars_of("device_name"), chars_of("variable")];
    assert(views(markers@) =~= seq!["device_id"@, "device_name"@, "variable"@]);
    let layout = Layout { cols, unused, markers, device_col, date_col, sensor_cols };
    let mut i: usize = 0;
    while i < lines.len()
        invariant
            layout.valid(),
            cs == views(layout.cols@),
            ls == views(lines@),
            ls == text_lines(chunk.data@),
            i <= lines@.len(),
            row_models(rows@) == selected_rows(cs, ls.take(i as int), d),
            sensors@.len() == present_sensors(cs).len(),
            forall|k: int| 0 <= k < rows@.len() ==> (#[trigger] rows@[k]).readings@.len() == sensors@.len(),
        decreases lines.len() - i,
    {
        assert(ls.take(i + 1).drop_last() =~= ls.take(i as int));
        assert(ls.take(i + 1).last() == lines@[i as int]@);
        match select_line(&layout, lines[i].as_slice(), d) {
            Some(row) => {
                let ghost r0 = rows@;
                assert(string_views(row.readings@).len() == present_sensors(cs).len());
                rows.push(row);
                assert(row_models(rows@) =~= row_models(r0).push(row.model()));
            },
            None => {},
        }
        i = i + 1;
    }
    assert(ls.take(i as int) =~= ls);
    ChunkRows { sensors, rows, total_lines_processed }
}

/// A copy of a character vector.
fn copy_chars(v: &Vec<char>) -> (r: Vec<char>)
    ensures
        r@ == v@,
{
    crate::text::copy_range(v.as_slice(), 0, v.len())
}

/// A row goes on to aggregation when some field is neither blank nor a
/// number (else it is an artifact row), and every reading is a number.
pub open spec fn row_kept(fields: Seq<Seq<char>>, field_numeric: Seq<bool>, reading_numeric: Seq<bool>) -> bool {
    &&& exists|i: int| 0 <= i < fields.len() && trimmed(fields[i]).len() > 0 && !field_numeric[i]
    &&& forall|j: int| 0 <= j < reading_numeric.len() ==> reading_numeric[j]
}

/// Whether each row goes on to aggregation, given for each of its fields
/// whether the trimmed field reads as a floating value, and for each of its
/// readings whether it reads as one.
pub fn keep_flags(rows: &ChunkRows, field_numeric: &Vec<Vec<bool>>, reading_numeric: &Vec<Vec<bool>>) -> (r: Vec<bool>)
    requires
        field_numeric@.len() == rows.rows@.len(),
        reading_numeric@.len() == rows.rows@.len(),
        forall|k: int| 0 <= k < rows.rows@.len() ==> (#[trigger] field_numeric@[k])@.len() == rows.rows@[k].fields@.len(),
    ensures
        r@.len() == rows.rows@.len(),
        forall|k: int| 0 <= k < rows.rows@.len() ==> r@[k] == row_kept(
            string_views(rows.rows@[k].fields@),
            field_numeric@[k]@,
            reading_numeric@[k]@,
        ),
{
    let mut r: Vec<bool> = Vec::new();
    let mut k: usize = 0;
    while k < rows.rows.len()
        invariant
            k <= rows.rows@.len(),
            field_numeric@.len() == rows.rows@.len(),
            reading_numeric@.len() == rows.rows@.len(),
            forall|k: int| 0 <= k < rows.rows@.len() ==> (#[trigger] field_numeric@[k])@.len() == rows.rows@[k].fields@.len(),
            r@.len() == k,
            forall|q: int| 0 <= q < k ==> r@[q] == row_kept(
                string_views(rows.rows@[q].fields@),
                field_numeric@[q]@,
                reading_numeric@[q]@,
            ),
        decreases rows.rows.len() - k,
    {
        let row = &rows.rows[k];
        let fnum = &field_numeric[k];
        let rnum = &reading_numeric[k];
        let ghost fs = string_views(row.fields@);
        let mut meaningful = false;
        let mut i: usize = 0;
        while i < row.fields.len()
            invariant
                i <= row.fields@.len(),
                fnum@.len() == row.fields@.len(),
                fs == string_views(row.fields@),
                meaningful == exists|x: int| 0 <= x < i && trimmed(fs[x]).len() > 0 && !fnum@[x],
            decreases row.fields.len() - i,
        {
            let t = trim_text(row.fields[i].as_str());
            assert(fs[i as int] == row.fields@[i as int]@);
            if !t.as_str().is_empty() && !fnum[i] {
                meaningful = true;
            }
            i = i + 1;
        }
        let mut all_numbers = true;
        let mut j: usize = 0;
        while j < rnum.len()
            invariant
                j <= rnum@.len(),
                all_numbers == forall|y: int| 0 <= y < j ==> rnum@[y],
            decreases rnum.len() - j,
        {
            if !rnum[j] {
                all_numbers = false;
            }
            j = j + 1;
        }
        r.push(meaningful && all_numbers);
        k = k + 1;
    }
    r
}

} // verus!
