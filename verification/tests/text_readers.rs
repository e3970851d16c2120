use qdc_core::readers::{
    inspect_csv_headers, inspect_dat_headers, list_headers, read_csv, read_dat,
    read_processed_csv, read_tabular, time_grid, ReadError,
};

const SECOND: i64 = 1_000_000_000;

#[test]
fn headers_of_a_first_line() {
    assert_eq!(list_headers(" a , b,c\r\n1,2,3", b','), vec!["a", "b", "c"]);
    assert_eq!(list_headers("a\tb", b'\t'), vec!["a", "b"]);
    assert_eq!(list_headers("", b','), vec![""]);
    assert_eq!(list_headers("a,,b,", b','), vec!["a", "", "b", ""]);
    // The delimiter is a character of that number.
    assert_eq!(list_headers("a\u{e9}b", 0xE9), vec!["a", "b"]);
    // White space of any script goes.
    assert_eq!(list_headers("\u{3000}a\u{a0}", b','), vec!["a"]);
}

#[test]
fn headers_of_csv_bytes() {
    assert_eq!(inspect_csv_headers(b"Time, X ,Y\n").unwrap(), vec!["Time", "X", "Y"]);
    assert!(matches!(inspect_csv_headers(&[0xFF]), Err(ReadError::NotUtf8)));
}

#[test]
fn headers_of_dat_bytes() {
    let named = b"Scan started at 10:00:00 01/02/2024\nTime_s\tBx\t\tBy\tBz\textra\n";
    assert_eq!(inspect_dat_headers(named).unwrap(), vec!["Bx", "By", "Bz"]);
    let short = b"Scan started at 10:00:00 01/02/2024\nTime_s\tBx\tBy\n";
    assert_eq!(inspect_dat_headers(short).unwrap(), vec!["X", "Y", "Z"]);
    assert_eq!(inspect_dat_headers(b"").unwrap(), vec!["X", "Y", "Z"]);
    assert!(matches!(inspect_dat_headers(&[0xC3]), Err(ReadError::NotUtf8)));
}

#[test]
fn table_with_times_and_channels() {
    let csv = b"Time,X,Y,Z\n1970-01-01 00:00:01, 1.5 ,2,x\n\n1970-01-01 00:00:01.25,3,4,5\r\n";
    let f = read_csv(csv, 0, 1, 2, 3).unwrap();
    assert_eq!(f.times_ns, vec![SECOND, SECOND + 250_000_000]);
    assert_eq!(f.x, vec!["1.5", "3"]);
    assert_eq!(f.y, vec!["2", "4"]);
    assert_eq!(f.z, vec!["x", "5"]);
    assert_eq!(f.dt_ns, 250_000_000);
}

#[test]
fn table_behind_other_lines() {
    let tsv = b"made by a logger\nt\tx\n1/1/1970 00:00:02\t1\n01/01/1970 00:00:03\t2\n";
    // The first cell does not tell its format, but the second one does, and
    // both can be read in it.
    let f = read_tabular(tsv, b'\t', 0, 1, 1, 1, 1).unwrap();
    assert_eq!(f.times_ns, vec![2 * SECOND, 3 * SECOND]);
    assert_eq!(f.z, vec!["1", "2"]);
}

#[test]
fn tables_that_cannot_be_read() {
    assert!(matches!(read_csv(&[0xFF], 0, 1, 2, 3), Err(ReadError::NotUtf8)));
    assert!(matches!(read_csv(b"", 0, 1, 2, 3), Err(ReadError::NoHeader)));
    assert!(matches!(read_tabular(b"a\nb\n", b',', 0, 1, 2, 3, 2), Err(ReadError::NoHeader)));
    match read_csv(b"h\n", 0, 1, 2, 3).unwrap_err() {
        ReadError::BadTime(s, row) => {
            assert_eq!(s, "(no detectable format)");
            assert_eq!(row, 0);
        }
        other => panic!("{:?}", other),
    }
    match read_csv(b"h\n\n2024-01-01 00:00:00,1,2,3\n2024-01-01 00:00:01,1\n", 0, 1, 2, 3)
        .unwrap_err()
    {
        ReadError::ShortRow { row, got, need } => {
            assert_eq!((row, got, need), (3, 2, 4));
        }
        other => panic!("{:?}", other),
    }
    match read_csv(b"h\n2024-01-01 00:00:00,1,2,3\n 2024-13-01 00:00:00 ,1,2,3\n", 0, 1, 2, 3)
        .unwrap_err()
    {
        ReadError::BadTime(s, row) => {
            assert_eq!(s, "2024-13-01 00:00:00");
            assert_eq!(row, 2);
        }
        other => panic!("{:?}", other),
    }
    assert!(matches!(
        read_csv(b"h\n2024-01-01 00:00:00,1,2,3\n", 0, 1, 2, 3),
        Err(ReadError::Empty)
    ));
}

#[test]
fn blank_lines_change_no_table() {
    let rows = ["2024-01-01 00:00:00,1,2,3\n", "2024-01-01 00:00:01,4,5,6\n"];
    let plain = format!("h\n{}{}", rows[0], rows[1]);
    let want = read_csv(plain.as_bytes(), 0, 1, 2, 3).unwrap();
    for blank in ["\n", "\r\n", " \t\n", "\u{3000}\n"] {
        for spaced in [
            format!("h\n{blank}{}{}", rows[0], rows[1]),
            format!("h\n{}{blank}{}", rows[0], rows[1]),
            format!("h\n{}{}{blank}", rows[0], rows[1]),
        ] {
            let f = read_csv(spaced.as_bytes(), 0, 1, 2, 3).unwrap();
            assert_eq!(f.times_ns, want.times_ns);
            assert_eq!((f.x, f.y, f.z, f.dt_ns), (want.x.clone(), want.y.clone(), want.z.clone(), want.dt_ns));
        }
        // An error names its row by its line.
        let broken = format!("h\n{}{blank}oh,1,2,3\n", rows[0]);
        assert!(matches!(
            read_csv(broken.as_bytes(), 0, 1, 2, 3),
            Err(ReadError::BadTime(s, 3)) if s == "oh"
        ));
        let results = format!("# run\nTime,X_PkPk\n{blank}2024-01-01 00:00:00,1\n{blank}");
        let f = read_processed_csv(results.as_bytes()).unwrap();
        assert_eq!(f.times_ns.len(), 1);
        assert_eq!(f.x_pkpk, vec![Some("1".to_string())]);
        let scan = format!("Scan started at 10:00:00 01/02/2024\nt\tx\ty\tz\n0\t1\t2\t3\n{blank}1\t4\t5\t6\n");
        let f = read_dat(scan.as_bytes()).unwrap();
        assert_eq!(f.rows.len(), 2);
        assert_eq!((f.rows[0].row, f.rows[1].row), (1, 3));
        assert_eq!(f.rows[1].x, "4");
    }
}

fn times_of(cells: &[&str]) -> Vec<i64> {
    let mut csv = String::from("Time,V\n");
    for c in cells {
        csv.push_str(c);
        csv.push_str(",1\n");
    }
    read_csv(csv.as_bytes(), 0, 1, 1, 1).unwrap().times_ns
}

#[test]
fn one_instant_in_every_format() {
    // 2024-02-29 13:45:30.5 UTC.
    let want = 1_709_214_330 * SECOND + SECOND / 2;
    for cell in [
        "2024-02-29 13:45:30.5",
        "2024-02-29T13:45:30.500",
        "29/02/2024 13:45:30.5",
        "29-02-2024 13:45:30.5000000009",
        "2024/02/29 13:45:30.5",
        "2024/02/29T13:45:30 .5",
    ] {
        assert_eq!(times_of(&[cell, cell]), vec![want, want]);
    }
}

#[test]
fn instants_at_the_edges() {
    assert_eq!(
        times_of(&["1970-01-01 00:00:00", "1969-12-31 23:59:59", "2000-03-01 00:00:00"]),
        vec![0, -SECOND, 951_868_800 * SECOND]
    );
    // A leap second falls on the next minute; a day that the month does not
    // have falls into the next one.
    assert_eq!(
        times_of(&["1970-01-01 00:00:60", "1970-02-31 00:00:00"]),
        vec![60 * SECOND, (31 + 30) * 86_400 * SECOND]
    );
    // Nine digits count, others behind the point do not.
    assert_eq!(
        times_of(&["1970-01-01 00:00:00.1234567899", "1970-01-01 00:00:00.x", "1970-01-01 00:00:00Z"]),
        vec![123_456_789, 0, 0]
    );
    // Signs are read as numbers have them.
    assert_eq!(times_of(&["1970-01-+1 00:00:00", "1970-+1-01 00:00:+5"]), vec![0, 5 * SECOND]);
}

#[test]
fn instants_that_are_none() {
    for cell in [
        "2024-00-01 00:00:00",
        "2024-01-00 00:00:00",
        "2024-01-32 00:00:00",
        "2024-01-01 24:00:00",
        "2024-01-01 00:60:00",
        "2024-01-01 00:00:61",
        "2024-01-01 00:00",
        "2024-01-01",
        "2024-01-01 0x:00:00",
        "9999-01-01 00:00:00",
        "2024\u{e9}01-01 00:00:00",
    ] {
        let csv = format!("Time,V\n2024-01-01 00:00:00,1\n{},1\n", cell);
        assert!(
            matches!(read_csv(csv.as_bytes(), 0, 1, 1, 1), Err(ReadError::BadTime(s, 2)) if s == cell),
            "{}",
            cell
        );
    }
    for cell in ["1/2/3/2024 00:00:00", "1/2 00:00:00", "1/2/2024", "1/-2/2024 00:00:00", "99/99/99999999999 00:00:00"] {
        let csv = format!("Time,V\n01/01/2024 00:00:00,1\n{},1\n", cell);
        assert!(
            matches!(read_csv(csv.as_bytes(), 0, 1, 1, 1), Err(ReadError::BadTime(s, 2)) if s == cell),
            "{}",
            cell
        );
    }
}

#[test]
fn dat_file_with_rows() {
    let dat = b"Scan started at 00:00:10 01/01/1970\r\nTime_s\tX\tY\tZ\n 0.0\t1\t2\t 3 \n\n0.5\t4\t5\t6\t7\n";
    let f = read_dat(dat).unwrap();
    assert_eq!(f.start_ns, 10 * SECOND);
    assert_eq!(f.rows.len(), 2);
    assert_eq!((f.rows[0].row, f.rows[0].time.as_str()), (1, " 0.0"));
    assert_eq!(f.rows[0].z, "3");
    assert_eq!((f.rows[1].row, f.rows[1].x.as_str()), (3, "4"));
    assert!(f.short.is_none());
    assert!(f.check(&[true, true]).is_ok());
    match f.check(&[true, false]).unwrap_err() {
        ReadError::BadNumber(s, row, column) => {
            assert_eq!((s.as_str(), row, column), ("0.5", 3, 0));
        }
        other => panic!("{:?}", other),
    }
}

#[test]
fn dat_rows_fail_in_turn() {
    let dat = b"Scan started at 00:00:10 01/01/1970\nh\nx\t1\t2\t3\n1\t2\n2\t1\t2\t3\n";
    let f = read_dat(dat).unwrap();
    assert_eq!(f.rows.len(), 1);
    assert_eq!(f.short, Some((2, 2)));
    // A time that is no number comes before the short row behind it.
    assert!(matches!(f.check(&[false]), Err(ReadError::BadNumber(s, 1, 0)) if s == "x"));
    match f.check(&[true]).unwrap_err() {
        ReadError::ShortRow { row, got, need } => assert_eq!((row, got, need), (2, 2, 4)),
        other => panic!("{:?}", other),
    }
    let one = read_dat(b"Scan started at 00:00:10 01/01/1970\nh\n0\t1\t2\t3\n").unwrap();
    assert!(matches!(one.check(&[true]), Err(ReadError::Empty)));
}

#[test]
fn dat_files_that_cannot_be_read() {
    assert!(matches!(read_dat(&[0x80]), Err(ReadError::NotUtf8)));
    assert!(matches!(read_dat(b""), Err(ReadError::NoHeader)));
    assert!(matches!(
        read_dat(b"Scan started at 00:00:10 01/01/1970"),
        Err(ReadError::NoHeader)
    ));
    for header in [
        "Scan stopped at 00:00:10 01/01/1970",
        "Scan started at ",
        "Scan started at 00:00:10",
        "Scan started at 01/01/1970 00:00:10",
    ] {
        let dat = format!("{}\nh\n", header);
        assert!(matches!(read_dat(dat.as_bytes()), Err(ReadError::DatBadHeader(s)) if s == header));
    }
}

#[test]
fn instants_a_fixed_step_apart() {
    assert_eq!(time_grid(5, 3, 10), Some(vec![5, 15, 25]));
    assert_eq!(time_grid(5, 3, -10), Some(vec![5, -5, -15]));
    assert_eq!(time_grid(i128::MAX, 0, 10), Some(vec![]));
    assert_eq!(time_grid(i64::MAX as i128, 1, 10), Some(vec![i64::MAX]));
    assert_eq!(time_grid(i64::MAX as i128, 2, 10), None);
    assert_eq!(time_grid(i64::MAX as i128 + 1, 1, 10), None);
}

#[test]
fn table_of_results() {
    let csv = b"## pkpkTime: 120, lp_freq: 5 \nTime, X_PkPk ,Z_PkPk,ZY_PkPk\n2024-01-01 00:00:00, 1 ,,3\n\nshort\n2024-01-01 00:00:01,4\n";
    // The row "short" has a time cell that cannot be read.
    assert!(matches!(read_processed_csv(csv), Err(ReadError::BadTime(s, 3)) if s == "short"));
    let csv = b"## pkpkTime: 120, lp_freq: 5 \nX_PkPk, Time ,Z_PkPk,ZY_PkPk\n 1 ,1970-01-01 00:00:00,,3\n\nshort\n4,1970-01-01 00:00:01\n";
    let f = read_processed_csv(csv).unwrap();
    assert_eq!(f.metadata, "pkpkTime: 120, lp_freq: 5");
    assert_eq!(f.times_ns, vec![0, SECOND]);
    let some = |s: &str| Some(s.to_string());
    assert_eq!(f.x_pkpk, vec![some("1"), some("4")]);
    assert_eq!(f.y_pkpk, vec![None, None]);
    assert_eq!(f.z_pkpk, vec![some(""), None]);
    assert_eq!(f.xy_pkpk, vec![None, None]);
    assert_eq!(f.xz_pkpk, vec![None, None]);
    assert_eq!(f.yz_pkpk, vec![some("3"), None]);
}

#[test]
fn table_of_results_prefers_one_name() {
    let csv = b"Time,ZY_PkPk,YZ_PkPk,XY_PkPk,XZ_PkPk,Y_PkPk\n1970-01-01 00:00:00,1,2,3,4,5\n";
    let f = read_processed_csv(csv).unwrap();
    assert_eq!(f.metadata, "");
    assert_eq!(f.yz_pkpk, vec![Some("2".to_string())]);
    assert_eq!(f.xy_pkpk, vec![Some("3".to_string())]);
    assert_eq!(f.xz_pkpk, vec![Some("4".to_string())]);
    assert_eq!(f.y_pkpk, vec![Some("5".to_string())]);
}

#[test]
fn tables_of_results_that_cannot_be_read() {
    assert!(matches!(read_processed_csv(&[0xFF]), Err(ReadError::NotUtf8)));
    assert!(matches!(read_processed_csv(b""), Err(ReadError::NoHeader)));
    assert!(matches!(read_processed_csv(b"# only\n"), Err(ReadError::NoHeader)));
    assert!(matches!(read_processed_csv(b"X_PkPk\n1\n"), Err(ReadError::NoHeader)));
    assert!(matches!(
        read_processed_csv(b"Time\nnever\n"),
        Err(ReadError::BadTime(s, 0)) if s == "processed-csv"
    ));
}
