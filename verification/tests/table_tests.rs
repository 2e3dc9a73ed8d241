use tickdb::{Column, ColumnType, Schema, SymbolDict, SymbolError, Table, TickError};

#[test]
fn flush_truncates_to_exact_row_bytes() {
    let schema = Schema::new("w1", "")
        .add_col(Column::new("a", ColumnType::U32))
        .add_col(Column::new("b", ColumnType::U8));
    let mut table = Table::create(schema, "");
    for i in 0..10i64 {
        table.put(i).unwrap();
        table.put_u32(1000 + i as u32);
        table.put_u8(i as u8);
    }
    table.flush();
    // lengths are exactly stride * row_count
    assert_eq!(table.storage[0][0].bytes.len(), 10 * 8);
    assert_eq!(table.storage[0][1].bytes.len(), 10 * 4);
    assert_eq!(table.storage[0][2].bytes.len(), 10 * 1);
    // contents are the little-endian rows
    let mut want_ts: Vec<u8> = Vec::new();
    let mut want_a: Vec<u8> = Vec::new();
    let mut want_b: Vec<u8> = Vec::new();
    for i in 0..10i64 {
        want_ts.extend_from_slice(&(i as u64).to_le_bytes());
        want_a.extend_from_slice(&(1000 + i as u32).to_le_bytes());
        want_b.push(i as u8);
    }
    assert_eq!(table.storage[0][0].bytes, want_ts);
    assert_eq!(table.storage[0][1].bytes, want_a);
    assert_eq!(table.storage[0][2].bytes, want_b);
}

#[test]
fn growth_preserves_written_rows() {
    // more rows than the initial file capacity, forcing at least one regrow
    let n: usize = tickdb::DEFAULT_ROWS + 5;
    let schema = Schema::new("w2", "").add_col(Column::new("v", ColumnType::U16));
    let mut table = Table::create(schema, "");
    for i in 0..n {
        table.put(i as i64).unwrap();
        table.put_u16((i % 1000) as u16);
    }
    // capacity doubled past the default
    assert!(table.storage[0][0].bytes.len() > tickdb::DEFAULT_ROWS * 8);
    table.flush();
    let cols = vec![String::from("ts"), String::from("v")];
    let mut it = table.partition_iter(0, 10, &cols).unwrap();
    let batch = it.next().unwrap();
    assert_eq!(batch[0].get_i64(), vec![0, 1, 2, 3, 4, 5, 6, 7, 8, 9, 10]);
    assert_eq!(batch[1].get_u16(), vec![0, 1, 2, 3, 4, 5, 6, 7, 8, 9, 10]);
    let mut it2 = table
        .partition_iter((n as i64) - 2, n as i64, &cols)
        .unwrap();
    let tail = it2.next().unwrap();
    assert_eq!(tail[0].get_i64(), vec![n as i64 - 2, n as i64 - 1]);
}

#[test]
fn symbol_round_trip_and_side_file() {
    let schema = Schema::new("w3", "").add_col(Column::new("sym", ColumnType::Symbol));
    let mut table = Table::create(schema, "");
    for (i, s) in ["AAPL", "MSFT", "AAPL", "GOOG"].iter().enumerate() {
        table.put(i as i64).unwrap();
        table.put_symbol(s).unwrap();
    }
    table.flush();
    let dict = table.schema.columns[1].symbol_file.as_ref().unwrap();
    assert_eq!(dict.file, "AAPL\nMSFT\nGOOG");
    assert_eq!(dict.symbols, vec!["AAPL", "MSFT", "GOOG"]);
    let cols = vec![String::from("sym")];
    let mut it = table.partition_iter(0, 10, &cols).unwrap();
    let batch = it.next().unwrap();
    assert_eq!(batch[0].get_u64(), vec![1, 2, 1, 3]);
    let syms = batch[0].get_sym().unwrap();
    assert_eq!(syms, vec!["AAPL", "MSFT", "AAPL", "GOOG"]);
    // a dictionary rebuilt from the side-file lines resolves identically
    let lines: Vec<String> = dict.file.split('\n').map(String::from).collect();
    let rebuilt = SymbolDict::from_lines(&lines).unwrap();
    assert_eq!(rebuilt.symbols, dict.symbols);
    assert_eq!(rebuilt.file, dict.file);
    assert_eq!(rebuilt.resolve(2), Some(&String::from("MSFT")));
    assert_eq!(rebuilt.resolve(0), None);
    assert_eq!(rebuilt.resolve(4), None);
}

#[test]
fn symbol_with_newline_is_rejected() {
    let mut d = SymbolDict::new();
    assert_eq!(d.add_sym("AB\nC"), Err(SymbolError::InvalidSymbol));
    assert_eq!(d.add_sym(""), Err(SymbolError::InvalidSymbol));
    assert_eq!(d.add_sym("AB"), Ok(1));
    assert_eq!(d.add_sym("CD"), Ok(2));
    assert_eq!(d.add_sym("AB"), Ok(1));
    assert_eq!(d.file, "AB\nCD");
}

#[test]
fn duplicate_side_file_line_is_rejected() {
    let lines = vec![String::from("A"), String::from("B"), String::from("A")];
    assert!(matches!(
        SymbolDict::from_lines(&lines),
        Err(SymbolError::DuplicateSymbol)
    ));
}

#[test]
fn round_trip_sums_after_flush_and_rescan() {
    let schema = Schema::new("w4", "%Y")
        .add_col(Column::new("open", ColumnType::F32))
        .add_col(Column::new("volume", ColumnType::U64));
    let mut table = Table::create(schema, "");
    let n: i64 = 1000;
    let mut want_vol: u64 = 0;
    let mut want_open: f64 = 0.0;
    for i in 0..n {
        let open = (i as f32) * 0.5;
        let vol = (i * i) as u64;
        table.put(i).unwrap();
        table.put_f32_bits(open.to_bits());
        table.put_u64(vol);
        want_vol += vol;
        want_open += open as f64;
    }
    table.flush();
    let cols = vec![
        String::from("ts"),
        String::from("open"),
        String::from("volume"),
    ];
    let mut it = table.partition_iter(0, n, &cols).unwrap();
    let mut rows: usize = 0;
    let mut vol: u64 = 0;
    let mut open: f64 = 0.0;
    while let Some(batch) = it.next() {
        rows += batch[0].row_count;
        for bits in batch[1].get_f32_bits() {
            open += f32::from_bits(bits) as f64;
        }
        for v in batch[2].get_u64() {
            vol += v;
        }
    }
    assert_eq!(rows, n as usize);
    assert_eq!(vol, want_vol);
    assert_eq!(open, want_open);
}

#[test]
fn out_of_schema_types_round_trip() {
    let schema = Schema::new("w5", "")
        .add_col(Column::new("a", ColumnType::I8))
        .add_col(Column::new("b", ColumnType::I16))
        .add_col(Column::new("c", ColumnType::I64))
        .add_col(Column::new("d", ColumnType::F64));
    let mut table = Table::create(schema, "");
    table.put(1).unwrap();
    table.put_i8(-5);
    table.put_i16(-300);
    table.put_i64(-1_000_000_000_000);
    table.put_f64_bits((-2.25f64).to_bits());
    table.flush();
    let cols = vec![
        String::from("a"),
        String::from("b"),
        String::from("c"),
        String::from("d"),
    ];
    let mut it = table.partition_iter(0, 2, &cols).unwrap();
    let batch = it.next().unwrap();
    assert_eq!(batch[0].get_i8(), vec![-5]);
    assert_eq!(batch[1].get_i16(), vec![-300]);
    assert_eq!(batch[2].get_i64(), vec![-1_000_000_000_000]);
    assert_eq!(
        batch[3]
            .get_f64_bits()
            .into_iter()
            .map(f64::from_bits)
            .collect::<Vec<_>>(),
        vec![-2.25]
    );
}

#[test]
fn first_and_last_ts_track_partitions() {
    let schema = Schema::new("w6", "");
    let mut table = Table::create(schema, "");
    assert_eq!(table.get_first_ts(), None);
    assert_eq!(table.get_last_ts(), None);
    table.put(3).unwrap();
    table.put(9).unwrap();
    assert_eq!(table.get_first_ts(), Some(3));
    assert_eq!(table.get_last_ts(), Some(9));
}

#[test]
fn reopen_after_flush_round_trips() {
    let schema = Schema::new("w7", "%Y")
        .add_col(Column::new("sym", ColumnType::Symbol))
        .add_col(Column::new("v", ColumnType::U32));
    let mut table = Table::create(schema, "");
    let names = ["AAPL", "MSFT", "GOOG"];
    for i in 0..100i64 {
        table.put(i).unwrap();
        table.put_symbol(names[(i % 3) as usize]).unwrap();
        table.put_u32(i as u32 * 2);
    }
    table.flush();
    // reassemble from the persisted parts, as opening the table from disk does
    let reopened = Table::open(
        table.schema.clone(),
        table.partitions.clone(),
        table.storage.clone(),
        "",
    )
    .unwrap();
    let cols = vec![String::from("ts"), String::from("sym"), String::from("v")];
    let mut it = reopened.partition_iter(0, 1000, &cols).unwrap();
    let batch = it.next().unwrap();
    assert_eq!(batch[0].row_count, 100);
    assert_eq!(batch[0].get_i64(), (0..100).collect::<Vec<i64>>());
    let syms = batch[1].get_sym().unwrap();
    assert_eq!(syms[0], "AAPL");
    assert_eq!(syms[4], "MSFT");
    assert_eq!(
        batch[2].get_u32(),
        (0..100u32).map(|i| i * 2).collect::<Vec<u32>>()
    );
    assert!(it.next().is_none());
}

#[test]
fn corrupt_parts_are_rejected_on_open() {
    let schema = Schema::new("w8", "");
    let mut table = Table::create(schema, "");
    table.put(1).unwrap();
    table.put(2).unwrap();
    table.flush();
    // a row count past the stored bytes
    let mut parts = table.partitions.clone();
    parts[0].row_count = 3;
    assert!(matches!(
        Table::open(table.schema.clone(), parts, table.storage.clone(), ""),
        Err(tickdb::TickError::CorruptTable)
    ));
    // timestamps out of order on disk
    let mut bad = table.storage.clone();
    bad[0][0].bytes[0..8].copy_from_slice(&9u64.to_le_bytes());
    assert!(matches!(
        Table::open(table.schema.clone(), table.partitions.clone(), bad, ""),
        Err(tickdb::TickError::CorruptTable)
    ));
}

#[test]
fn write_faults_leave_table_unchanged() {
    // a non-empty format with no known specifier has no bucket width
    let schema = Schema::new("wf1", "abc");
    let mut table = Table::create(schema, "");
    assert_eq!(table.put(5), Err(TickError::NoPartitionSpecifier));
    assert_eq!(table.partitions.len(), 0);
    // a yearly format with an offset specifier has a width, but a naive UTC
    // datetime cannot render %z, so the formatter refuses the directory
    let schema = Schema::new("wf2", "%Y%z");
    let mut table = Table::create(schema, "");
    assert_eq!(table.put(5), Err(TickError::FormatRefused));
    assert_eq!(table.partitions.len(), 0);
    // yearly buckets are width-quantized from the epoch; the 1971 bucket is a
    // common year wide, and quantizing the first instant of leap 1972 by the
    // leap-year width lands inside it
    let year: i64 = 31_536_000_000_000_000;
    let schema = Schema::new("wf3", "%Y");
    let mut table = Table::create(schema, "");
    table.put(year).unwrap();
    assert_eq!(table.put(2 * year), Err(TickError::BucketOverlap));
    assert_eq!(table.partitions.len(), 1);
    assert_eq!(table.partitions[0].row_count, 1);
}
