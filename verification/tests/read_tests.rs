use tickdb::{binary_search_seek, Column, ColumnType, Schema, Table};

#[test]
fn test_binary_search_seek() {
    let data = [1, 2, 2, 2, 2, 2, 3, 4, 5, 5, 5, 5, 5, 5, 6, 7, 8, 10];
    assert_eq!(binary_search_seek(&data, 2, true), Ok(1));
    assert_eq!(binary_search_seek(&data, 2, false), Ok(5 + 1));
    assert_eq!(binary_search_seek(&data, 5, true), Ok(8));
    assert_eq!(binary_search_seek(&data, 5, false), Ok(13 + 1));
    assert_eq!(binary_search_seek(&data, 9, false), Err(data.len() - 1));
    assert_eq!(binary_search_seek(&data, 10, false), Ok(data.len()));
    assert_eq!(binary_search_seek(&data, 21, false), Err(data.len()));

    let data = [1];
    assert_eq!(binary_search_seek(&data, 1, true), Ok(0));
    assert_eq!(binary_search_seek(&data, 1, false), Ok(1));

    let data = [];
    assert_eq!(binary_search_seek(&data, 1, true), Err(0));
    assert_eq!(binary_search_seek(&data, 1, false), Err(0));
}

#[test]
fn empty_range_yields_no_batches() {
    let schema = Schema::new("scans1", "%Y").add_col(Column::new("x", ColumnType::F32));
    let table = Table::create(schema, "");
    let cols = vec![String::from("ts"), String::from("x")];
    let mut it = table
        .partition_iter(0, 1_000_000_000_000_000_000, &cols)
        .unwrap();
    assert!(it.next().is_none());
}

#[test]
fn single_partition_duplicates() {
    let schema = Schema::new("scans2", "%Y");
    let mut table = Table::create(schema, "");
    for ts in [1i64, 2, 2, 2, 5, 5, 6] {
        table.put(ts).unwrap();
    }
    table.flush();
    let cols = vec![String::from("ts")];
    let mut it = table.partition_iter(2, 5, &cols).unwrap();
    let batch = it.next().unwrap();
    assert_eq!(batch.len(), 1);
    assert_eq!(batch[0].get_i64(), vec![2, 2, 2, 5, 5]);
    assert!(it.next().is_none());
}

#[test]
fn cross_partition_year_rollover() {
    // 2020-01-01T00:00:00Z and 2021-06-15T00:00:00Z in nanoseconds
    let ts_2020: i64 = 1_577_836_800_000_000_000;
    let ts_2021: i64 = 1_623_715_200_000_000_000;
    let ts_end: i64 = 1_640_908_800_000_000_000; // 2021-12-31
    let schema = Schema::new("scans3", "%Y").add_col(Column::new("x", ColumnType::U32));
    let mut table = Table::create(schema, "");
    table.put(ts_2020).unwrap();
    table.put_u32(7);
    table.put(ts_2021).unwrap();
    table.put_u32(9);
    table.flush();
    assert_eq!(table.partitions.len(), 2);
    assert!(table.partitions[0].dir.ends_with("2020"));
    assert!(table.partitions[1].dir.ends_with("2021"));
    let cols = vec![String::from("ts"), String::from("x")];
    let mut it = table.partition_iter(ts_2020, ts_end, &cols).unwrap();
    let first = it.next().unwrap();
    assert_eq!(first[0].row_count, 1);
    assert_eq!(first[0].get_i64(), vec![ts_2020]);
    assert_eq!(first[1].get_u32(), vec![7]);
    let second = it.next().unwrap();
    assert_eq!(second[0].row_count, 1);
    assert_eq!(second[0].get_i64(), vec![ts_2021]);
    assert_eq!(second[1].get_u32(), vec![9]);
    assert!(it.next().is_none());
}

#[test]
fn unknown_column_is_rejected() {
    let schema = Schema::new("scans4", "");
    let mut table = Table::create(schema, "");
    table.put(5).unwrap();
    table.flush();
    let cols = vec![String::from("nope")];
    assert!(matches!(
        table.partition_iter(0, 10, &cols),
        Err(tickdb::TickError::UnknownColumn)
    ));
}

#[test]
fn range_filter_is_exact_across_many_rows() {
    let schema = Schema::new("scans5", "%Y").add_col(Column::new("v", ColumnType::I32));
    let mut table = Table::create(schema, "");
    for i in 0..1000i64 {
        table.put(i * 3).unwrap();
        table.put_i32((i % 17) as i32);
    }
    table.flush();
    let cols = vec![String::from("ts"), String::from("v")];
    let mut it = table.partition_iter(30, 2400, &cols).unwrap();
    let batch = it.next().unwrap();
    let ts = batch[0].get_i64();
    assert_eq!(ts.first(), Some(&30));
    assert_eq!(ts.last(), Some(&2400));
    assert_eq!(ts.len(), 791);
    for w in ts.windows(2) {
        assert!(w[0] <= w[1]);
    }
    assert!(it.next().is_none());
}
