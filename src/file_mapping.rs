//! Header handling and input-file checks that need no file access.
use crate::text::{chars_of, same_chars, split_chars, split_on, string_of, views};
use crate::types::string_views;
use vstd::prelude::*;

verus! {

/// The text with leading and trailing white space removed, as `str::trim` gives it.
pub uninterp spec fn trimmed(s: Seq<char>) -> Seq<char>;

/// Relies on `str::trim`: the result depends on the text alone.
#[verifier::external_body]
pub(crate) fn trim_text(s: &str) -> (r: String)
    ensures
        r@ == trimmed(s@),
{
    s.trim().to_string()
}

/// The extension of a path as `Path::extension` gives it: the part of the file
/// name after its last `.`, and nothing when the name has no `.` but a leading one.
pub uninterp spec fn path_extension(p: Seq<char>) -> Option<Seq<char>>;

/// Relies on `Path::extension` and `OsStr::to_str`: the extension, when the
/// path has one that is valid Unicode.
#[verifier::external_body]
fn extension_text(p: &str) -> (r: Option<String>)
    ensures
        r matches Some(e) ==> path_extension(p@) == Some(e@),
        r is None ==> path_extension(p@) is None,
{
    match std::path::Path::new(p).extension() {
        Some(ext) => match ext.to_str() {
            Some(e) => Some(e.to_string()),
            None => None,
        },
        None => None,
    }
}

/// The text in lower case, as `str::to_lowercase` gives it.
pub uninterp spec fn lower_of(s: Seq<char>) -> Seq<char>;

/// Relies on `str::to_lowercase`: the result depends on the text alone.
#[verifier::external_body]
fn lowercase(s: &str) -> (r: String)
    ensures
        r@ == lower_of(s@),
{
    s.to_lowercase()
}

/// The column names of a header: its fields, each trimmed.
pub fn get_header_columns(header: &str, delimiter: char) -> (r: Vec<String>)
    ensures
        string_views(r@) == split_on(header@, delimiter).map_values(|f: Seq<char>| trimmed(f)),
{
    let fields = split_chars(chars_of(header).as_slice(), delimiter);
    let ghost fs = views(fields@);
    let mut r: Vec<String> = Vec::new();
    let mut i: usize = 0;
    while i < fields.len()
        invariant
            i <= fields@.len(),
            fs == views(fields@),
            fs == split_on(header@, delimiter),
            string_views(r@) == fs.take(i as int).map_values(|f: Seq<char>| trimmed(f)),
        decreases fields.len() - i,
    {
        let f = string_of(fields[i].as_slice());
        let t = trim_text(f.as_str());
        let ghost r0 = r@;
        r.push(t);
        assert(string_views(r@) =~= string_views(r0).push(t@));
        assert(fs.take(i + 1).map_values(|f: Seq<char>| trimmed(f)) =~= fs.take(i as int).map_values(
            |f: Seq<char>| trimmed(f),
        ).push(trimmed(fs[i as int])));
        i = i + 1;
    }
    assert(fs.take(i as int) =~= fs);
    r
}

/// The first position of `name` among `columns`.
pub fn position_of_column(columns: &Vec<String>, name: &str) -> (r: Option<usize>)
    ensures
        r matches Some(i) ==> i < columns@.len() && columns@[i as int]@ == name@ && forall|k: int|
            0 <= k < i ==> columns@[k]@ != name@,
        r is None ==> forall|k: int| 0 <= k < columns@.len() ==> columns@[k]@ != name@,
{
    let target = chars_of(name);
    let mut i: usize = 0;
    while i < columns.len()
        invariant
            i <= columns@.len(),
            target@ == name@,
            forall|k: int| 0 <= k < i ==> columns@[k]@ != name@,
        decreases columns.len() - i,
    {
        if same_chars(chars_of(columns[i].as_str()).as_slice(), target.as_slice()) {
            return Some(i);
        }
        i = i + 1;
    }
    None
}

/// The position of the column called `column_name`, comparing trimmed names.
pub fn find_column_index(header: &str, column_name: &str, delimiter: char) -> (r: Option<usize>)
    ensures
        r matches Some(i) ==> i < split_on(header@, delimiter).len() && trimmed(
            split_on(header@, delimiter)[i as int],
        ) == column_name@ && forall|k: int|
            0 <= k < i ==> trimmed(split_on(header@, delimiter)[k]) != column_name@,
        r is None ==> forall|k: int|
            0 <= k < split_on(header@, delimiter).len() ==> trimmed(split_on(header@, delimiter)[k])
                != column_name@,
{
    let columns = get_header_columns(header, delimiter);
    proof {
        assert(string_views(columns@).len() == columns@.len());
        assert(columns@.len() == split_on(header@, delimiter).len());
        assert forall|k: int| 0 <= k < columns@.len() implies columns@[k]@ == trimmed(split_on(header@, delimiter)[k]) by {
            assert(string_views(columns@)[k] == columns@[k]@);
        }
    }
    let r = position_of_column(&columns, column_name);
    proof {
        let sp = split_on(header@, delimiter);
        match r {
            Some(i) => {
                assert(columns@[i as int]@ == trimmed(sp[i as int]));
                assert forall|k: int| 0 <= k < i implies trimmed(sp[k]) != column_name@ by {
                    assert(columns@[k]@ == trimmed(sp[k]));
                }
            },
            None => {
                assert forall|k: int| 0 <= k < sp.len() implies trimmed(sp[k]) != column_name@ by {
                    assert(columns@[k]@ == trimmed(sp[k]));
                }
            },
        }
    }
    r
}

/// Whether a lower-cased extension names a CSV file.
pub fn is_csv_extension(lowered: &str) -> (r: bool)
    ensures
        r == (lowered@ == "csv"@),
{
    same_chars(chars_of(lowered).as_slice(), chars_of("csv").as_slice())
}

/// Whether the path has the extension `csv`, in any case.
pub fn validate_csv_extension(file_path: &str) -> (r: bool)
    ensures
        r == (path_extension(file_path@) matches Some(e) && lower_of(e) == "csv"@),
{
    match extension_text(file_path) {
        Some(ext) => {
            let lowered = lowercase(ext.as_str());
            is_csv_extension(lowered.as_str())
        },
        None => false,
    }
}

} // verus!
