use vstd::prelude::*;
use crate::schema::{Column, ColumnType};
use crate::table::TickError;

verus! {

/// The embedded language a query's user code is written in.
#[derive(Debug, Copy, Clone, PartialEq, Eq, Structural)]
pub enum QueryLang {
    Unknown,
    JavaScript,
    Julia,
    Python,
}

impl Default for QueryLang {
    fn default() -> (r: Self)
        ensures
            r == QueryLang::Unknown,
    {
        QueryLang::Unknown
    }
}

/// The user program of a query: its text and the path it was loaded from.
#[derive(Debug)]
pub struct Source {
    pub text: String,
    pub path: String,
}

/// A parsed query request: the table to scan, the inclusive nanosecond range,
/// the language, and the user program.
#[derive(Debug)]
pub struct Query {
    pub table: String,
    pub from: i64,
    pub to: i64,
    pub lang: QueryLang,
    pub source: Source,
}

/// The largest index of `ch` in `s`, or -1.
pub open spec fn spec_last_idx(s: Seq<char>, ch: char) -> int
    decreases s.len(),
{
    if s.len() == 0 {
        -1
    } else if s.last() == ch {
        s.len() - 1
    } else {
        spec_last_idx(s.drop_last(), ch)
    }
}

/// The extension of the file name in `p`: the portion after the final `.` of
/// the final path component, absent when there is no dot past the last slash
/// or the component starts with its only dot.
pub open spec fn spec_extension(p: Seq<char>) -> Option<Seq<char>> {
    let sl = spec_last_idx(p, '/');
    let dot = spec_last_idx(p, '.');
    if dot > sl + 1 {
        Some(p.subrange(dot + 1, p.len() as int))
    } else {
        None
    }
}

pub open spec fn spec_guess_query_lang(p: Seq<char>) -> QueryLang {
    match spec_extension(p) {
        None => QueryLang::Unknown,
        Some(e) => if e == "js"@ {
            QueryLang::JavaScript
        } else if e == "jl"@ {
            QueryLang::Julia
        } else if e == "py"@ {
            QueryLang::Python
        } else {
            QueryLang::Unknown
        },
    }
}

/// The largest index of `ch` in `s`, or `None` when absent.
fn last_idx(s: &str, ch: char) -> (r: Option<usize>)
    ensures
        r matches Some(i) ==> i as int == spec_last_idx(s@, ch) && i < s@.len(),
        r is None ==> spec_last_idx(s@, ch) == -1,
{
    let n: usize = s.unicode_len();
    let mut i: usize = n;
    proof {
        assert(s@.subrange(0, n as int) =~= s@);
    }
    while i > 0
        invariant
            n == s@.len(),
            0 <= i <= n,
            spec_last_idx(s@, ch) == spec_last_idx(s@.subrange(0, i as int), ch),
        decreases i,
    {
        i -= 1;
        let c: char = s.get_char(i);
        proof {
            assert(s@.subrange(0, i as int + 1).last() == s@[i as int]);
            assert(s@.subrange(0, i as int + 1).drop_last() =~= s@.subrange(0, i as int));
        }
        if c == ch {
            return Some(i);
        }
    }
    proof {
        assert(s@.subrange(0, 0).len() == 0);
    }
    None
}

/// Infers the query language from the source path's extension; `.js`, `.jl`
/// and `.py` are known, everything else is `Unknown`.
pub fn guess_query_lang(path: &str) -> (r: QueryLang)
    ensures
        r == spec_guess_query_lang(path@),
{
    let n: usize = path.unicode_len();
    let sl: Option<usize> = last_idx(path, '/');
    let dot_opt: Option<usize> = last_idx(path, '.');
    let past_slash: bool = match (dot_opt, sl) {
        (Some(d), None) => d > 0,
        (Some(d), Some(s)) => d > s + 1,
        (None, _) => false,
    };
    proof {
        assert(past_slash == (spec_last_idx(path@, '.') > spec_last_idx(path@, '/') + 1));
    }
    if past_slash {
        let dot: usize = match dot_opt {
            Some(d) => d,
            None => 0,
        };
        let start: usize = dot + 1;
        let m: usize = n - start;
        proof {
            reveal_strlit("js");
            reveal_strlit("jl");
            reveal_strlit("py");
        }
        if m != 2 {
            proof {
                let e = spec_extension(path@).unwrap();
                assert(e.len() == m);
            }
            return QueryLang::Unknown;
        }
        let c0: char = path.get_char(start);
        let c1: char = path.get_char(start + 1);
        proof {
            let e = spec_extension(path@).unwrap();
            assert(e.len() == 2);
            assert(e[0] == path@[dot + 1] && e[1] == path@[dot + 2]);
            assert(e == "js"@ <==> (e[0] == 'j' && e[1] == 's')) by {
                if e[0] == 'j' && e[1] == 's' {
                    assert(e =~= "js"@);
                }
            }
            assert(e == "jl"@ <==> (e[0] == 'j' && e[1] == 'l')) by {
                if e[0] == 'j' && e[1] == 'l' {
                    assert(e =~= "jl"@);
                }
            }
            assert(e == "py"@ <==> (e[0] == 'p' && e[1] == 'y')) by {
                if e[0] == 'p' && e[1] == 'y' {
                    assert(e =~= "py"@);
                }
            }
        }
        if c0 == 'j' && c1 == 's' {
            QueryLang::JavaScript
        } else if c0 == 'j' && c1 == 'l' {
            QueryLang::Julia
        } else if c0 == 'p' && c1 == 'y' {
            QueryLang::Python
        } else {
            QueryLang::Unknown
        }
    } else {
        QueryLang::Unknown
    }
}

/// A query whose language was absent takes the language inferred from its
/// source path.
pub fn resolve_lang(lang: QueryLang, path: &str) -> (r: QueryLang)
    ensures
        lang == QueryLang::Unknown ==> r == spec_guess_query_lang(path@),
        lang != QueryLang::Unknown ==> r == lang,
{
    if matches!(lang, QueryLang::Unknown) {
        guess_query_lang(path)
    } else {
        lang
    }
}

pub open spec fn is_dec_digit(c: char) -> bool {
    '0' <= c <= '9'
}

pub open spec fn all_dec_digits(s: Seq<char>) -> bool {
    forall|i: int| 0 <= i < s.len() ==> is_dec_digit(#[trigger] s[i])
}

/// The value of a digit string, most significant first.
pub open spec fn digits_val(s: Seq<char>) -> int
    decreases s.len(),
{
    if s.len() == 0 {
        0
    } else {
        digits_val(s.drop_last()) * 10 + (s.last() as int - '0' as int)
    }
}

/// What `str::parse::<i64>` accepts: an optional sign followed by one or more
/// decimal digits, denoting a value in range.
pub open spec fn spec_parse_i64(s: Seq<char>) -> Option<i64> {
    let neg = s.len() > 0 && s[0] == '-';
    let ds = if s.len() > 0 && (s[0] == '-' || s[0] == '+') {
        s.drop_first()
    } else {
        s
    };
    if ds.len() == 0 || !all_dec_digits(ds) {
        None
    } else {
        let v = if neg {
            -digits_val(ds)
        } else {
            digits_val(ds)
        };
        if i64::MIN <= v <= i64::MAX {
            Some(v as i64)
        } else {
            None
        }
    }
}

/// A digit string's value does not shrink as digits are appended.
proof fn lemma_digits_grow(s: Seq<char>)
    requires
        s.len() > 0,
        all_dec_digits(s),
    ensures
        digits_val(s) >= digits_val(s.drop_last()),
        digits_val(s) >= 0,
    decreases s.len(),
{
    if s.len() > 1 {
        assert(all_dec_digits(s.drop_last())) by {
            assert(forall|i: int| 0 <= i < s.len() - 1 ==> s.drop_last()[i] == s[i]);
        }
        lemma_digits_grow(s.drop_last());
    }
    assert(digits_val(s) == digits_val(s.drop_last()) * 10 + (s.last() as int - '0' as int));
    assert(digits_val(s.drop_last()) * 10 >= digits_val(s.drop_last())) by (nonlinear_arith)
        requires
            digits_val(s.drop_last()) >= 0,
    ;
}

/// Parses the digit run of a decimal number; reports the exact value, or that
/// the value exceeds `2^63`.
fn parse_digits(s: &str, start: usize) -> (r: Option<u64>)
    requires
        start < s@.len(),
        all_dec_digits(s@.subrange(start as int, s@.len() as int)),
    ensures
        ({
            let v = digits_val(s@.subrange(start as int, s@.len() as int));
            match r {
                Some(m) => m == v && v <= 0x8000_0000_0000_0000u64,
                None => v > 0x8000_0000_0000_0000u64,
            }
        }),
{
    let n: usize = s.unicode_len();
    let mut acc: u64 = 0;
    let mut i: usize = start;
    let mut big: bool = false;
    while i < n
        invariant
            n == s@.len(),
            start <= i <= n,
            all_dec_digits(s@.subrange(start as int, n as int)),
            !big ==> acc == digits_val(s@.subrange(start as int, i as int))
                && acc <= 0x8000_0000_0000_0000u64,
            big ==> digits_val(s@.subrange(start as int, i as int)) > 0x8000_0000_0000_0000u64,
        decreases n - i,
    {
        let c: char = s.get_char(i);
        proof {
            assert(s@.subrange(start as int, n as int)[i - start] == s@[i as int]);
            assert(is_dec_digit(s@[i as int]));
            assert(s@.subrange(start as int, i as int + 1).drop_last() =~= s@.subrange(
                start as int,
                i as int,
            ));
            assert(s@.subrange(start as int, i as int + 1).last() == s@[i as int]);
        }
        let d: u64 = (c as u32 as u64) - 48;
        let ghost pref = s@.subrange(start as int, i as int);
        let ghost ext = s@.subrange(start as int, i as int + 1);
        if big {
            proof {
                assert(all_dec_digits(ext)) by {
                    assert(forall|q: int|
                        0 <= q < ext.len() ==> ext[q] == s@.subrange(start as int, n as int)[q]);
                }
                lemma_digits_grow(ext);
                assert(digits_val(ext) >= digits_val(pref) * 10 + 0 - digits_val(pref) * 9);
                assert(digits_val(pref) * 10 >= digits_val(pref)) by (nonlinear_arith)
                    requires
                        digits_val(pref) >= 0,
                ;
                assert(digits_val(ext) > 0x8000_0000_0000_0000u64);
            }
        } else {
            if acc > 0x0CCC_CCCC_CCCC_CCCCu64 {
                // acc * 10 would pass 2^63
                big = true;
                proof {
                    assert(digits_val(ext) == digits_val(pref) * 10 + (s@[i as int] as int
                        - '0' as int));
                    assert(digits_val(pref) * 10 > 0x8000_0000_0000_0000u64) by (nonlinear_arith)
                        requires
                            digits_val(pref) > 0x0CCC_CCCC_CCCC_CCCCu64,
                    ;
                }
            } else {
                let next: u64 = acc * 10 + d;
                if next > 0x8000_0000_0000_0000u64 {
                    big = true;
                    proof {
                        assert(digits_val(ext) == digits_val(pref) * 10 + (s@[i as int] as int
                            - '0' as int));
                    }
                } else {
                    acc = next;
                    proof {
                        assert(digits_val(ext) == digits_val(pref) * 10 + (s@[i as int] as int
                            - '0' as int));
                    }
                }
            }
        }
        i += 1;
    }
    proof {
        assert(s@.subrange(start as int, n as int) =~= s@.subrange(start as int, i as int));
    }
    if big {
        None
    } else {
        Some(acc)
    }
}

/// Parses a decimal `i64` exactly as `str::parse::<i64>` does: optional sign,
/// one or more digits, in-range value.
pub fn parse_i64_dec(s: &str) -> (r: Option<i64>)
    ensures
        r == spec_parse_i64(s@),
{
    let n: usize = s.unicode_len();
    if n == 0 {
        return None;
    }
    let first: char = s.get_char(0);
    let neg: bool = first == '-';
    let start: usize = if first == '-' || first == '+' {
        1
    } else {
        0
    };
    if start >= n {
        return None;
    }
    // every character of the digit run must be a decimal digit
    let mut i: usize = start;
    while i < n
        invariant
            n == s@.len(),
            0 < n,
            start == 0 || start == 1,
            start == 1 <==> (s@[0] == '-' || s@[0] == '+'),
            start <= i <= n,
            forall|q: int| start <= q < i ==> is_dec_digit(#[trigger] s@[q]),
        decreases n - i,
    {
        let c: char = s.get_char(i);
        let cu: u32 = c as u32;
        proof {
            assert(cu == s@[i as int] as u32);
            assert(is_dec_digit(s@[i as int]) <==> (48 <= cu <= 57));
        }
        if !(cu >= 48 && cu <= 57) {
            proof {
                let ds = if s@[0] == '-' || s@[0] == '+' {
                    s@.drop_first()
                } else {
                    s@
                };
                assert(!all_dec_digits(ds)) by {
                    if start == 1 {
                        assert(ds =~= s@.subrange(1, s@.len() as int));
                        assert(ds[i - 1] == s@[i as int]);
                        assert(!is_dec_digit(ds[i - 1]));
                    } else {
                        assert(ds == s@);
                        assert(!is_dec_digit(ds[i as int]));
                    }
                }
            }
            return None;
        }
        i += 1;
    }
    proof {
        let ds = if s@[0] == '-' || s@[0] == '+' {
            s@.drop_first()
        } else {
            s@
        };
        assert(ds =~= s@.subrange(start as int, n as int));
        assert(all_dec_digits(s@.subrange(start as int, n as int)));
    }
    let mag: u64 = match parse_digits(s, start) {
        None => {
            return None;
        }
        Some(m) => m,
    };
    if neg {
        if mag > 0x8000_0000_0000_0000u64 {
            None
        } else if mag == 0x8000_0000_0000_0000u64 {
            Some(i64::MIN)
        } else {
            Some(-(mag as i64))
        }
    } else {
        if mag >= 0x8000_0000_0000_0000u64 {
            None
        } else {
            Some(mag as i64)
        }
    }
}

/// The nanosecond timestamp an RFC 3339 string denotes, when chrono can parse
/// it and the instant fits in nanoseconds; a function of the text alone.
pub uninterp spec fn rfc3339_nanos_of(s: Seq<char>) -> Option<i64>;

/// Relies on `chrono::DateTime::parse_from_rfc3339` and
/// `timestamp_nanos_opt`: parses an RFC 3339 timestamp to nanoseconds since
/// the epoch. The outcome depends on the text alone.
#[verifier::external_body]
pub fn parse_rfc3339_nanos(s: &str) -> (r: Option<i64>)
    ensures
        r == rfc3339_nanos_of(s@),
{
    chrono::DateTime::parse_from_rfc3339(s).ok().and_then(|d| d.timestamp_nanos_opt())
}

/// The nanosecond timestamp of midnight UTC of a `%Y-%m-%d` date, when
/// chrono can parse it; a function of the text alone.
pub uninterp spec fn ymd_nanos_of(s: Seq<char>) -> Option<i64>;

/// Relies on `chrono::NaiveDate::parse_from_str` with the `%Y-%m-%d` format,
/// `NaiveDate::and_hms_opt`, and `timestamp_nanos_opt`: parses a plain date
/// to the nanoseconds of its midnight. The outcome depends on the text alone.
#[verifier::external_body]
pub fn parse_ymd_nanos(s: &str) -> (r: Option<i64>)
    ensures
        r == ymd_nanos_of(s@),
{
    chrono::NaiveDate::parse_from_str(s, "%Y-%m-%d")
        .ok()
        .and_then(|d| d.and_hms_opt(0, 0, 0))
        .and_then(|dt| dt.and_utc().timestamp_nanos_opt())
}

/// What `string_to_nanoseconds` returns: integer nanoseconds when the text is
/// longer than four characters and parses as one, else RFC 3339, else a
/// `%Y-%m-%d` date at midnight UTC.
pub open spec fn spec_string_nanos(s: Seq<char>) -> Option<i64> {
    let by_int = if s.len() > 4 {
        spec_parse_i64(s)
    } else {
        None
    };
    match by_int {
        Some(n) => Some(n),
        None => match rfc3339_nanos_of(s) {
            Some(n) => Some(n),
            None => ymd_nanos_of(s),
        },
    }
}

/// Parses a request timestamp: integer nanoseconds, RFC 3339, or `%Y-%m-%d`,
/// in that order; an unparseable text is rejected.
pub fn string_to_nanoseconds(value: &str) -> (r: Result<i64, TickError>)
    ensures
        spec_string_nanos(value@) matches Some(n) ==> r == Ok::<i64, TickError>(n),
        spec_string_nanos(value@) is None ==> r == Err::<i64, TickError>(TickError::BadTimestamp),
{
    if value.unicode_len() > 4 {
        if let Some(n) = parse_i64_dec(value) {
            return Ok(n);
        }
    }
    match parse_rfc3339_nanos(value) {
        Some(n) => Ok(n),
        None => match parse_ymd_nanos(value) {
            Some(n) => Ok(n),
            None => Err(TickError::BadTimestamp),
        },
    }
}

/// Per-query scan counters: rows and bytes handed to the adapter. Timing is
/// measured by the caller.
#[derive(Debug, Copy, Clone, PartialEq, Eq, Structural)]
pub struct ScanStats {
    pub lang: QueryLang,
    pub row_count: u64,
    pub byte_count: u64,
}

impl ScanStats {
    pub fn new(lang: QueryLang) -> (r: ScanStats)
        ensures
            r.lang == lang,
            r.row_count == 0,
            r.byte_count == 0,
    {
        ScanStats { lang, row_count: 0, byte_count: 0 }
    }

    /// Accounts one delivered batch, saturating at the counter limits.
    pub fn add_batch(&mut self, rows: u64, bytes: u64)
        ensures
            final(self).lang == old(self).lang,
            final(self).row_count == if old(self).row_count + rows <= u64::MAX {
                old(self).row_count + rows
            } else {
                u64::MAX as int
            },
            final(self).byte_count == if old(self).byte_count + bytes <= u64::MAX {
                old(self).byte_count + bytes
            } else {
                u64::MAX as int
            },
    {
        self.row_count = self.row_count.saturating_add(rows);
        self.byte_count = self.byte_count.saturating_add(bytes);
    }
}

/// The stages of a scan that drive an outside language adapter, in the order
/// the pipeline runs them.
#[derive(Debug, Copy, Clone, PartialEq, Eq, Structural)]
pub enum ScanStep {
    /// Compiling the user source and constructing the adapter.
    AdapterInit,
    /// Looking the requested table up among the loaded tables.
    TableLookup,
    /// Introspecting the scan function's declared column arguments.
    ColumnDiscovery,
    /// Producing batches and handing each to the adapter.
    BatchLoop,
    /// Serialising the adapter's accumulated answer.
    Serialize,
}

/// The HTTP status a fault at each scan stage is reported with: a missing
/// table is the caller's 404, a fault of the user program (compiling it,
/// running it over batches) is 422, and a fault of the server's own
/// introspection or serialisation machinery is 500.
pub open spec fn spec_fault_status(step: ScanStep) -> u16 {
    match step {
        ScanStep::AdapterInit => 422,
        ScanStep::TableLookup => 404,
        ScanStep::ColumnDiscovery => 500,
        ScanStep::BatchLoop => 422,
        ScanStep::Serialize => 500,
    }
}

/// Decides how a scan ends. A faulted stage is reported with that stage's
/// HTTP status; a fault-free scan whose function declares no column
/// arguments is refused as unprocessable; only a fault-free scan over at
/// least one column succeeds.
pub fn dispatch_outcome(cols_len: usize, fault: Option<ScanStep>) -> (r: Result<(), u16>)
    ensures
        r is Ok <==> (fault is None && cols_len > 0),
        fault matches Some(step) ==> r == Err::<(), u16>(spec_fault_status(step)),
        fault is None && cols_len == 0 ==> r == Err::<(), u16>(422u16),
{
    match fault {
        Some(step) => Err(
            match step {
                ScanStep::AdapterInit => 422,
                ScanStep::TableLookup => 404,
                ScanStep::ColumnDiscovery => 500,
                ScanStep::BatchLoop => 422,
                ScanStep::Serialize => 500,
            },
        ),
        None => {
            if cols_len == 0 {
                Err(422)
            } else {
                Ok(())
            }
        }
    }
}

/// Validates the adapter-declared scan arguments against the schema: each
/// argument must name a schema column and declare its on-disk type. Returns
/// the argument names in order.
pub fn validate_scan_args(columns: &Vec<Column>, args: &Vec<(String, ColumnType)>) -> (r: Result<
    Vec<String>,
    TickError,
>)
    ensures
        r is Err ==> (r == Err::<Vec<String>, TickError>(TickError::UnknownColumn) || r == Err::<
            Vec<String>,
            TickError,
        >(TickError::TypeMismatch)),
        r matches Ok(names) ==> {
            &&& names@.len() == args@.len()
            &&& forall|j: int|
                0 <= j < args@.len() ==> (#[trigger] names@[j])@ == args@[j].0@
            &&& forall|j: int|
                #![trigger args@[j]]
                0 <= j < args@.len() ==> exists|c: int|
                    0 <= c < columns@.len() && (#[trigger] columns@[c]).name@ == args@[j].0@
                        && columns@[c].typ == args@[j].1
        },
        r == Err::<Vec<String>, TickError>(TickError::UnknownColumn) ==> exists|j: int|
            #![trigger args@[j]]
            0 <= j < args@.len() && forall|c: int|
                0 <= c < columns@.len() ==> (#[trigger] columns@[c]).name@ != args@[j].0@,
        r == Err::<Vec<String>, TickError>(TickError::TypeMismatch) ==> exists|j: int, c: int|
            #![trigger columns@[c], args@[j]]
            0 <= j < args@.len() && 0 <= c < columns@.len() && columns@[c].name@ == args@[j].0@
                && columns@[c].typ != args@[j].1,
    {
        let n: usize = args.len();
        let nc: usize = columns.len();
        let mut names: Vec<String> = Vec::new();
        let mut j: usize = 0;
        while j < n
            invariant
                n == args@.len(),
                nc == columns@.len(),
                0 <= j <= n,
                names@.len() == j,
                forall|q: int| 0 <= q < j ==> (#[trigger] names@[q])@ == args@[q].0@,
                forall|q: int|
                    #![trigger args@[q]]
                    0 <= q < j ==> exists|c: int|
                        0 <= c < columns@.len() && (#[trigger] columns@[c]).name@ == args@[q].0@
                            && columns@[c].typ == args@[q].1,
            decreases n - j,
        {
            let name: &String = &args[j].0;
            let typ: ColumnType = args[j].1;
            let mut c: usize = 0;
            let mut hit: bool = false;
            while c < nc
                invariant
                    n == args@.len(),
                    nc == columns@.len(),
                    0 <= c <= nc,
                    0 <= j < n,
                    names@.len() == j,
                    forall|q: int| 0 <= q < j ==> (#[trigger] names@[q])@ == args@[q].0@,
                    forall|q: int|
                        #![trigger args@[q]]
                        0 <= q < j ==> exists|cc: int|
                            0 <= cc < columns@.len() && (#[trigger] columns@[cc]).name@
                                == args@[q].0@ && columns@[cc].typ == args@[q].1,
                    name@ == args@[j as int].0@,
                    typ == args@[j as int].1,
                    !hit ==> forall|q: int|
                        0 <= q < c ==> (#[trigger] columns@[q]).name@ != name@,
                    hit ==> exists|q: int|
                        0 <= q < columns@.len() && (#[trigger] columns@[q]).name@ == name@
                            && columns@[q].typ == typ,
                decreases nc - c + (if hit { 0int } else { 1int }),
            {
                if !hit && columns[c].name.eq(name) {
                    if !(columns[c].typ == typ) {
                        return Err(TickError::TypeMismatch);
                    }
                    hit = true;
                } else {
                    c += 1;
                }
            }
            if !hit {
                proof {
                    assert(forall|q: int|
                        0 <= q < columns@.len() ==> (#[trigger] columns@[q]).name@
                            != args@[j as int].0@);
                }
                return Err(TickError::UnknownColumn);
            }
            let ghost prev_names = names@;
            names.push(name.clone());
            proof {
                assert(names@[j as int]@ == args@[j as int].0@);
                assert(forall|q: int|
                    0 <= q < j ==> names@[q] == prev_names[q]);
            }
            j += 1;
        }
        proof {
            assert(names@.len() == args@.len());
            assert(forall|q: int| 0 <= q < args@.len() ==> (#[trigger] names@[q])@ == args@[q].0@);
            assert forall|q: int|
                #![trigger args@[q]]
                0 <= q < args@.len() implies exists|c: int|
                    0 <= c < columns@.len() && (#[trigger] columns@[c]).name@ == args@[q].0@
                        && columns@[c].typ == args@[q].1 by {
                assert(0 <= q < j);
                let c0 = choose|c0: int|
                    0 <= c0 < columns@.len() && (#[trigger] columns@[c0]).name@ == args@[q].0@
                        && columns@[c0].typ == args@[q].1;
                assert(0 <= c0 < columns@.len() && columns@[c0].name@ == args@[q].0@
                    && columns@[c0].typ == args@[q].1);
            }
        }
        Ok(names)
    }

} // verus!
