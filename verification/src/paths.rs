use vstd::prelude::*;
use core::fmt::Write as FmtWrite;
use crate::schema::{Column, Schema};
use crate::table::Partition;

verus! {

/// `<home>/data/<name>`; an empty home leaves a relative `data/<name>`.
pub open spec fn spec_data_path(home: Seq<char>, name: Seq<char>) -> Seq<char> {
    if home.len() == 0 {
        "data/"@ + name
    } else {
        home + "/data/"@ + name
    }
}

pub fn get_data_path(home: &str, name: &str) -> (r: String)
    ensures
        r@ == spec_data_path(home@, name@),
{
    let mut r = String::new();
    if home.unicode_len() == 0 {
        r.append("data/");
    } else {
        r.append(home);
        r.append("/data/");
    }
    r.append(name);
    r
}

pub open spec fn spec_meta_path(home: Seq<char>, name: Seq<char>) -> Seq<char> {
    spec_data_path(home, name) + "/_meta"@
}

pub fn get_meta_path(home: &str, name: &str) -> (r: String)
    ensures
        r@ == spec_meta_path(home@, name@),
{
    let mut r = get_data_path(home, name);
    r.append("/_meta");
    r
}

/// What chrono's strftime renders `fmt` to at the given UTC timestamp: a
/// function of the format and the timestamp alone.
pub uninterp spec fn strftime_of(f: Seq<char>, secs: int, nanos: int) -> Seq<char>;

/// Whether chrono's formatter accepts `fmt`: a function of the format alone.
/// Rendering a naive UTC datetime fails exactly on a malformed specifier or
/// on one that needs an offset or timezone name, both properties of the
/// format string, never of the timestamp being rendered.
pub uninterp spec fn strftime_ok(f: Seq<char>) -> bool;

/// Relies on `chrono::DateTime::from_timestamp` and `NaiveDateTime::format`:
/// renders the strftime-like format at a UTC timestamp. The rendered text
/// depends on the format and the timestamp alone. Returns `None` exactly when
/// chrono's formatter refuses the format string: writing into a `String`
/// fails only on a malformed specifier or one that demands the offset a
/// naive datetime lacks, so success too depends on the format alone.
/// `from_timestamp` is documented to accept every timestamp the bounds here
/// admit.
#[verifier::external_body]
pub fn strftime_format(fmt: &str, secs: i64, nanos: u32) -> (r: Option<String>)
    requires
        0 <= secs <= 9_223_372_036,
        nanos < 1_000_000_000,
    ensures
        r is Some <==> strftime_ok(fmt@),
        r matches Some(s) ==> s@ == strftime_of(fmt@, secs as int, nanos as int),
{
    let dt = chrono::DateTime::<chrono::Utc>::from_timestamp(secs, nanos)
        .expect("timestamp in documented range");
    let mut out = String::new();
    match write!(out, "{}", dt.naive_utc().format(fmt)) {
        Ok(()) => Some(out),
        Err(_) => None,
    }
}

/// The directory of the partition bucket holding `ts`: the strftime rendering
/// of the schema's partition format, or the single bucket `all` when the
/// format is empty.
pub open spec fn spec_partition_dir(
    home: Seq<char>,
    name: Seq<char>,
    f: Seq<char>,
    ts: int,
) -> Seq<char> {
    if f.len() == 0 {
        spec_data_path(home, name) + "/all"@
    } else {
        spec_data_path(home, name) + "/"@ + strftime_of(
            f,
            crate::timeparts::secs_of(ts),
            crate::timeparts::nanos_of(ts),
        )
    }
}

/// Formats the partition directory for a timestamp. `None` exactly when the
/// schema's non-empty partition format is refused by the formatter.
pub fn get_partition_dir(home: &str, schema: &Schema, val: i64) -> (r: Option<String>)
    requires
        0 <= val,
    ensures
        r matches Some(d) ==> d@ == spec_partition_dir(home@, schema.name@, schema.partition_fmt@, val as int),
        r is Some <==> (schema.partition_fmt@.len() == 0 || strftime_ok(schema.partition_fmt@)),
{
    let mut dir = get_data_path(home, schema.name.as_str());
    if schema.partition_fmt.as_str().unicode_len() == 0 {
        dir.append("/all");
        Some(dir)
    } else {
        let (secs, nanos) = crate::timeparts::split_ts(val);
        match strftime_format(schema.partition_fmt.as_str(), secs, nanos) {
            None => None,
            Some(bucket) => {
                dir.append("/");
                dir.append(bucket.as_str());
                Some(dir)
            }
        }
    }
}

/// `<partition dir>/<column name>.<lowercase type name>`.
pub open spec fn spec_col_path(dir: Seq<char>, c: Column) -> Seq<char> {
    dir + "/"@ + c.name@ + "."@ + c.typ.spec_ext()
}

pub fn get_col_path(p: &Partition, column: &Column) -> (r: String)
    ensures
        r@ == spec_col_path(p.dir@, *column),
{
    let mut r = String::new();
    r.append(p.dir.as_str());
    r.append("/");
    r.append(column.name.as_str());
    r.append(".");
    r.append(column.typ.ext());
    r
}

} // verus!
