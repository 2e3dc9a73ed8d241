use tickdb::{
    dispatch_outcome, fmt_error, fmt_error_line, fmt_stack_trace, get_col_path, get_data_path,
    get_meta_path, get_partition_dir, guess_query_lang, is_leap, parse_i64_dec, partition_max_ts,
    partition_min_ts, resolve_lang, stringify_header, string_to_nanoseconds, u64_to_dec,
    validate_scan_args, Column, ColumnType, MinMax, Partition, QueryLang, ScanStats, ScanStep,
    Schema, StackFrame, TickError,
};

#[test]
fn guesses_language_from_extension() {
    assert_eq!(guess_query_lang("q.js"), QueryLang::JavaScript);
    assert_eq!(guess_query_lang("dir/run.jl"), QueryLang::Julia);
    assert_eq!(guess_query_lang("a/b/c.py"), QueryLang::Python);
    assert_eq!(guess_query_lang("noext"), QueryLang::Unknown);
    assert_eq!(guess_query_lang("dir.js/file"), QueryLang::Unknown);
    assert_eq!(guess_query_lang(".js"), QueryLang::Unknown);
    assert_eq!(guess_query_lang("x.rs"), QueryLang::Unknown);
    assert_eq!(
        resolve_lang(QueryLang::Julia, "q.js"),
        QueryLang::Julia
    );
    assert_eq!(
        resolve_lang(QueryLang::Unknown, "q.js"),
        QueryLang::JavaScript
    );
}

#[test]
fn parses_integer_nanoseconds() {
    assert_eq!(parse_i64_dec("12345"), Some(12345));
    assert_eq!(parse_i64_dec("-7"), Some(-7));
    assert_eq!(parse_i64_dec("+42"), Some(42));
    assert_eq!(parse_i64_dec(""), None);
    assert_eq!(parse_i64_dec("-"), None);
    assert_eq!(parse_i64_dec("12a"), None);
    assert_eq!(parse_i64_dec("9223372036854775807"), Some(i64::MAX));
    assert_eq!(parse_i64_dec("9223372036854775808"), None);
    assert_eq!(parse_i64_dec("-9223372036854775808"), Some(i64::MIN));
    assert_eq!(parse_i64_dec("-9223372036854775809"), None);
    assert_eq!(parse_i64_dec("0000000000000000000000x5"), None);
    assert_eq!(parse_i64_dec("000000000000000000000005"), Some(5));
}

#[test]
fn parses_request_timestamps() {
    // integer nanoseconds when longer than four characters
    assert_eq!(string_to_nanoseconds("123456789"), Ok(123_456_789));
    // a four-character integer is not taken as nanoseconds
    assert!(string_to_nanoseconds("1234").is_err());
    // RFC 3339
    assert_eq!(
        string_to_nanoseconds("2020-01-01T00:00:00Z"),
        Ok(1_577_836_800_000_000_000)
    );
    // plain date at midnight UTC
    assert_eq!(
        string_to_nanoseconds("2020-01-01"),
        Ok(1_577_836_800_000_000_000)
    );
    assert_eq!(
        string_to_nanoseconds("not a date"),
        Err(TickError::BadTimestamp)
    );
}

#[test]
fn partition_bounds_for_year_format() {
    let ts_2020: i64 = 1_577_836_800_000_000_000;
    let w_leap: i64 = 366 * 24 * 60 * 60 * 1_000_000_000;
    let min = partition_min_ts("%Y", ts_2020);
    let max = partition_max_ts("%Y", ts_2020);
    assert_eq!(min, ts_2020 - ts_2020 % w_leap);
    assert_eq!(max, min + w_leap - 1);
    assert!(min <= ts_2020 && ts_2020 <= max);
    // finer specifiers win
    let w_day: i64 = 24 * 60 * 60 * 1_000_000_000;
    let dmin = partition_min_ts("%Y-%m-%d", ts_2020);
    let dmax = partition_max_ts("%Y-%m-%d", ts_2020);
    assert_eq!(dmax - dmin + 1, w_day);
}

#[test]
fn leap_years() {
    assert!(is_leap(2000));
    assert!(!is_leap(1900));
    assert!(is_leap(2020));
    assert!(!is_leap(2021));
}

#[test]
fn validates_scan_arguments() {
    let columns = vec![
        Column::new("ts", ColumnType::Timestamp),
        Column::new("x", ColumnType::F32),
    ];
    let ok = validate_scan_args(
        &columns,
        &vec![(String::from("x"), ColumnType::F32)],
    );
    assert_eq!(ok.unwrap(), vec![String::from("x")]);
    let mismatch = validate_scan_args(
        &columns,
        &vec![(String::from("x"), ColumnType::I64)],
    );
    assert_eq!(mismatch, Err(TickError::TypeMismatch));
    let missing = validate_scan_args(
        &columns,
        &vec![(String::from("y"), ColumnType::F32)],
    );
    assert_eq!(missing, Err(TickError::UnknownColumn));
}

#[test]
fn dispatches_scan_outcomes() {
    // each faulted stage reports its own status
    assert_eq!(dispatch_outcome(1, Some(ScanStep::AdapterInit)), Err(422));
    assert_eq!(dispatch_outcome(1, Some(ScanStep::TableLookup)), Err(404));
    assert_eq!(dispatch_outcome(1, Some(ScanStep::ColumnDiscovery)), Err(500));
    assert_eq!(dispatch_outcome(1, Some(ScanStep::BatchLoop)), Err(422));
    assert_eq!(dispatch_outcome(1, Some(ScanStep::Serialize)), Err(500));
    // a fault-free scan needs at least one column argument
    assert_eq!(dispatch_outcome(0, None), Err(422));
    assert_eq!(dispatch_outcome(1, None), Ok(()));
    assert_eq!(dispatch_outcome(3, None), Ok(()));
}

#[test]
fn scan_stats_accumulate() {
    let mut stats = ScanStats::new(QueryLang::JavaScript);
    stats.add_batch(10, 80);
    stats.add_batch(5, 40);
    assert_eq!(stats.row_count, 15);
    assert_eq!(stats.byte_count, 120);
    stats.add_batch(u64::MAX, u64::MAX);
    assert_eq!(stats.row_count, u64::MAX);
}

#[test]
fn renders_decimals_and_headers() {
    assert_eq!(u64_to_dec(0), "0");
    assert_eq!(u64_to_dec(10), "10");
    assert_eq!(u64_to_dec(90210), "90210");
    assert_eq!(u64_to_dec(u64::MAX), "18446744073709551615");
    let none: Vec<(String, String)> = Vec::new();
    assert_eq!(
        stringify_header("HTTP/1.1", 200, "OK", 4, &none),
        "HTTP/1.1 200 OK\r\nContent-Length: 4\r\n\r\n"
    );
    let hs = vec![(String::from("Server"), String::from("tickdb"))];
    assert_eq!(
        stringify_header("HTTP/1.1", 404, "Not Found", 0, &hs),
        "HTTP/1.1 404 Not Found\r\nContent-Length: 0\r\nServer: tickdb\r\n\r\n"
    );
}

#[test]
fn renders_error_reports() {
    assert_eq!(fmt_error_line("asdf", 1, 3), "asdf\n ^^");
    assert_eq!(fmt_error_line("\tx", 1, 2), "\tx\n\t^");
    let frames = vec![StackFrame {
        fn_name: String::from("Object.<anonymous>"),
        file: String::from("query.js"),
        line: 12,
        col: 1,
    }];
    assert_eq!(
        fmt_stack_trace(&frames),
        "\n\tat Object.<anonymous> (query.js:12:1)\n"
    );
    let report = fmt_error(
        "query.js",
        Some(12),
        Some((String::from("asdfasdf"), 0, 8)),
        "ReferenceError: asdfasdf is not defined",
        &frames,
    );
    assert_eq!(
        report,
        "query.js:12\nasdfasdf\n^^^^^^^^\n\nReferenceError: asdfasdf is not defined\n\tat Object.<anonymous> (query.js:12:1)\n"
    );
}

#[test]
fn finds_headers_case_insensitively() {
    let hs = vec![
        (String::from("Host"), String::from("x")),
        (String::from("Content-Length"), String::from("42")),
    ];
    assert_eq!(tickdb::find_header(&hs, "content-length"), Some(1));
    assert_eq!(tickdb::find_header(&hs, "accept"), None);
    assert!(tickdb::name_eq_ignore_case("Content-LENGTH", "content-length"));
    assert!(!tickdb::name_eq_ignore_case("Content", "content-length"));
}

#[test]
fn path_layout() {
    assert_eq!(get_data_path("", "t"), "data/t");
    assert_eq!(get_data_path("/srv", "t"), "/srv/data/t");
    assert_eq!(get_meta_path("", "t"), "data/t/_meta");
    let p = Partition {
        dir: String::from("data/t/2020"),
        ts_range: MinMax { min: 0, max: 0 },
        ts_bounds: MinMax { min: 0, max: 0 },
        row_count: 0,
    };
    let c = Column::new("v", ColumnType::U32);
    assert_eq!(get_col_path(&p, &c), "data/t/2020/v.u32");
    let sym = Column::new("s", ColumnType::Symbol);
    assert_eq!(get_col_path(&p, &sym), "data/t/2020/s.symbol");
    // the bucket directory is the strftime rendering of the timestamp
    let schema = Schema::new("t", "%Y");
    assert_eq!(
        get_partition_dir("", &schema, 1_577_836_800_000_000_000).unwrap(),
        "data/t/2020"
    );
    let all = Schema::new("t", "");
    assert_eq!(get_partition_dir("", &all, 5).unwrap(), "data/t/all");
}
