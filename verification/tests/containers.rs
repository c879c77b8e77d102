use shrink_oracle::matrix::RowMatrix;
use shrink_oracle::memory::InMemoryRowProvider;
use shrink_oracle::pvor::reader::{PvorError, PvorReader};
use shrink_oracle::pvor::writer::{write_u32_tables_streaming, TableMeta, WriteError};
use shrink_oracle::rows::{RowError, RowProvider};

fn two_tables() -> Vec<u8> {
    let mut out: Vec<u8> = Vec::new();
    let tables = [
        TableMeta { name: "a", rows: 2, cols: 3, values_u32_le: &[1, 2, 3, 4, 5, 0xfffffffe] },
        TableMeta { name: "pre/\u{e9}", rows: 1, cols: 1, values_u32_le: &[7] },
    ];
    write_u32_tables_streaming(&mut out, &tables).unwrap();
    out
}

#[test]
fn a_container_is_written_byte_by_byte() {
    let out = two_tables();
    let mut expected: Vec<u8> = Vec::new();
    expected.extend_from_slice(b"PVOR");
    expected.extend_from_slice(&[1, 0, 0, 0, 2, 0, 0, 0, 0, 0, 0, 0]);
    // 16 bytes, and two descriptions of 30 bytes with names of 1 and 6 bytes.
    let start: u64 = 16 + 31 + 36;
    expected.extend_from_slice(&[1, 0, b'a', 2, 0, 0, 0, 3, 0, 0, 0, 4, 0, 0, 0]);
    expected.extend_from_slice(&start.to_le_bytes());
    expected.extend_from_slice(&24u64.to_le_bytes());
    expected.extend_from_slice(&[6, 0]);
    expected.extend_from_slice("pre/\u{e9}".as_bytes());
    expected.extend_from_slice(&[1, 0, 0, 0, 1, 0, 0, 0, 4, 0, 0, 0]);
    expected.extend_from_slice(&(start + 24).to_le_bytes());
    expected.extend_from_slice(&4u64.to_le_bytes());
    for v in [1u32, 2, 3, 4, 5, 0xfffffffe, 7] {
        expected.extend_from_slice(&v.to_le_bytes());
    }
    assert_eq!(out, expected);
}

#[test]
fn what_was_written_is_read_back() {
    let mut r = PvorReader::open(two_tables()).unwrap();
    assert_eq!(r.table_names(), vec!["a", "pre/\u{e9}"]);
    let t = r.table("a").unwrap().clone();
    assert_eq!(t.name, "a");
    assert_eq!((t.rows, t.cols, t.offset, t.byte_len), (2, 3, 83, 24));
    assert!(r.table("b").is_none());
    assert_eq!(r.read_row_u32("a", 0).unwrap(), vec![1, 2, 3]);
    assert_eq!(r.read_row_u32("a", 1).unwrap(), vec![4, 5, 0xfffffffe]);
    assert_eq!(RowProvider::read_row_u32(&mut r, "pre/\u{e9}", 0).unwrap(), vec![7]);
    assert_eq!(r.dims("a"), Some((2, 3)));
    assert_eq!(r.dims("b"), None);
}

#[test]
fn rows_that_are_not_there_are_refused() {
    let mut bytes = two_tables();
    let r = PvorReader::open(bytes.clone()).unwrap();
    assert!(matches!(r.read_row_u32("b", 0), Err(RowError::MissingTable(t)) if t == "b"));
    assert!(matches!(r.read_row_u32("a", 2), Err(RowError::RowOutOfRange(t)) if t == "a"));
    bytes.pop();
    let cut = PvorReader::open(bytes).unwrap();
    assert_eq!(cut.read_row_u32("a", 1).unwrap(), vec![4, 5, 0xfffffffe]);
    assert!(matches!(cut.read_row_u32("pre/\u{e9}", 0), Err(RowError::Unreadable(_))));
}

#[test]
fn the_last_table_of_a_name_counts() {
    let mut out: Vec<u8> = Vec::new();
    let tables = [
        TableMeta { name: "t", rows: 1, cols: 1, values_u32_le: &[1] },
        TableMeta { name: "t", rows: 1, cols: 2, values_u32_le: &[2, 3] },
    ];
    write_u32_tables_streaming(&mut out, &tables).unwrap();
    let r = PvorReader::open(out).unwrap();
    assert_eq!(r.table_names(), vec!["t", "t"]);
    assert_eq!(r.read_row_u32("t", 0).unwrap(), vec![2, 3]);
}

#[test]
fn empty_tables_and_containers_are_fine() {
    let mut out: Vec<u8> = Vec::new();
    write_u32_tables_streaming(&mut out, &[]).unwrap();
    assert_eq!(out.len(), 16);
    assert!(PvorReader::open(out).unwrap().table_names().is_empty());
    let mut out: Vec<u8> = Vec::new();
    let tables = [
        TableMeta { name: "", rows: 3, cols: 0, values_u32_le: &[] },
        TableMeta { name: "none", rows: 0, cols: 4, values_u32_le: &[] },
    ];
    write_u32_tables_streaming(&mut out, &tables).unwrap();
    let r = PvorReader::open(out).unwrap();
    assert_eq!(r.read_row_u32("", 2).unwrap(), Vec::<u32>::new());
    assert!(matches!(r.read_row_u32("none", 0), Err(RowError::RowOutOfRange(_))));
}

#[test]
fn an_impossible_layout_writes_nothing() {
    let mut out: Vec<u8> = vec![5];
    let wide = [TableMeta { name: "w", rows: u32::MAX, cols: u32::MAX, values_u32_le: &[] }];
    assert!(matches!(
        write_u32_tables_streaming(&mut out, &wide),
        Err(WriteError::ByteLenOverflow)
    ));
    let half = TableMeta { name: "h", rows: 1 << 31, cols: (1 << 31) - 1, values_u32_le: &[] };
    let twice = [half, half];
    assert!(matches!(
        write_u32_tables_streaming(&mut out, &twice),
        Err(WriteError::OffsetOverflow)
    ));
    assert_eq!(out, vec![5]);
}

#[test]
fn a_long_name_stops_the_descriptions() {
    let long: String = "n".repeat(65536);
    let mut out: Vec<u8> = Vec::new();
    let tables = [
        TableMeta { name: "a", rows: 0, cols: 0, values_u32_le: &[] },
        TableMeta { name: &long, rows: 0, cols: 0, values_u32_le: &[] },
    ];
    assert!(matches!(
        write_u32_tables_streaming(&mut out, &tables),
        Err(WriteError::NameTooLong)
    ));
    assert_eq!(out.len(), 16 + 31);
    let longest: String = "n".repeat(65535);
    let mut out: Vec<u8> = Vec::new();
    let table = [TableMeta { name: &longest, rows: 1, cols: 1, values_u32_le: &[3] }];
    write_u32_tables_streaming(&mut out, &table).unwrap();
    let r = PvorReader::open(out).unwrap();
    assert_eq!(r.read_row_u32(&longest, 0).unwrap(), vec![3]);
}

#[test]
fn the_number_of_values_must_match() {
    let mut out: Vec<u8> = Vec::new();
    let few = [TableMeta { name: "f", rows: 1, cols: 2, values_u32_le: &[9] }];
    assert!(matches!(
        write_u32_tables_streaming(&mut out, &few),
        Err(WriteError::EndedEarly(t)) if t == "f"
    ));
    assert_eq!(out.len(), 16 + 31 + 4);
    let mut out: Vec<u8> = Vec::new();
    let many = [TableMeta { name: "m", rows: 1, cols: 2, values_u32_le: &[9, 9, 9] }];
    assert!(matches!(
        write_u32_tables_streaming(&mut out, &many),
        Err(WriteError::TooManyElements(t)) if t == "m"
    ));
    assert_eq!(out.len(), 16 + 31 + 8);
}

#[test]
fn broken_containers_are_refused() {
    let good = two_tables();
    let change = |at: usize, v: u8| {
        let mut b = good.clone();
        b[at] = v;
        PvorReader::open(b)
    };
    assert!(matches!(change(0, b'Q'), Err(PvorError::BadMagic)));
    assert!(matches!(change(4, 2), Err(PvorError::UnsupportedVersion(2))));
    assert!(matches!(change(18, 0xff), Err(PvorError::NameNotUtf8)));
    assert!(matches!(change(27, 8), Err(PvorError::ElementSize)));
    assert!(matches!(change(28, 1), Err(PvorError::Encoding)));
    assert!(matches!(
        change(39, 25),
        Err(PvorError::ByteLenMismatch { table, got: 25, expected: 24 }) if table == "a"
    ));
    for n in 0..83 {
        let mut b = good.clone();
        b.truncate(n);
        assert!(matches!(PvorReader::open(b), Err(PvorError::UnexpectedEnd)), "{}", n);
    }
    let mut b = good.clone();
    for i in 19..27 {
        b[i] = 0xff;
    }
    assert!(matches!(PvorReader::open(b), Err(PvorError::ByteLenOverflow)));
}

#[test]
fn traces_in_memory_are_served() {
    let main = RowMatrix { values: vec![1, 2, 3, 4, 5, 6], width: 2 };
    let pre = RowMatrix { values: vec![8, 9, 10], width: 3 };
    let ragged = RowMatrix { values: vec![1, 2, 3], width: 2 };
    let none = RowMatrix { values: vec![], width: 0 };
    let mains = [("m", &main), ("x", &ragged), ("n", &none)];
    let pres = [("pre/m", &pre), ("x", &pre)];
    let mut p = InMemoryRowProvider::new(&mains, &pres);
    assert_eq!(p.dims("m"), Some((3, 2)));
    assert_eq!(p.dims("n"), Some((0, 0)));
    assert_eq!(p.dims("x"), Some((1, 3)));
    assert_eq!(p.dims("y"), None);
    assert_eq!(p.read_row_u32("m", 2).unwrap(), vec![5, 6]);
    assert_eq!(p.read_row_u32("pre/m", 0).unwrap(), vec![8, 9, 10]);
    assert!(matches!(p.read_row_u32("m", 3), Err(RowError::RowOutOfRange(_))));
    assert!(matches!(p.read_row_u32("y", 0), Err(RowError::MissingTable(_))));
    assert_eq!(ragged.height(), 1);
    assert_eq!(ragged.row(0), vec![1, 2]);
}

#[test]
fn reserved_bytes_are_ignored() {
    let plain = two_tables();
    let a = PvorReader::open(plain.clone()).unwrap();
    let mut bytes = plain.clone();
    // The reserved bytes of the fixed part and of the two descriptions, and the data.
    for i in [12, 13, 14, 15, 29, 30, 65, 66] {
        assert_eq!(bytes[i], 0);
        bytes[i] = 0xff;
    }
    let last = bytes.len() - 1;
    bytes[last] = 9;
    bytes.push(1);
    let b = PvorReader::open(bytes).unwrap();
    assert_eq!(a.table_names(), b.table_names());
    for name in ["a", "pre/\u{e9}"] {
        let (s, t) = (a.table(name).unwrap(), b.table(name).unwrap());
        assert_eq!((s.rows, s.cols, s.offset, s.byte_len), (t.rows, t.cols, t.offset, t.byte_len));
    }
    // The element size stands right before them.
    let mut broken = plain;
    broken[27] = 8;
    assert!(matches!(PvorReader::open(broken), Err(PvorError::ElementSize)));
}
