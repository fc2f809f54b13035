use onebrc::parse::{is_valid_value, parse_line, parse_temp, LineError};
use onebrc::partition::{aggregate, merge_tables, plan_ranges, ByteRange};
use onebrc::reader::{scan_bytes, ChunkReader, ScanError};
use onebrc::report::{format_stat, format_tenths, mean_tenths};
use onebrc::stat::Stat;
use onebrc::table::{Overflow, Table};

const SAMPLE: &[u8] = b"A;3.2\nB;-1.5\nA;0.0\n";

fn summary(t: &Table) -> Vec<(Vec<u8>, i64, i64, i64, u32)> {
    let mut keys = t.key_list();
    keys.sort();
    keys.into_iter()
        .map(|k| {
            let s = t.get(&k).unwrap();
            (k, s.min, s.max, s.sum, s.count)
        })
        .collect()
}

fn render(t: &Table) -> String {
    let mut keys = t.key_list();
    keys.sort();
    let mut out = String::from("{");
    for (i, k) in keys.iter().enumerate() {
        if i > 0 {
            out.push_str(", ");
        }
        out.push_str(std::str::from_utf8(k).unwrap());
        out.push('=');
        out.push_str(std::str::from_utf8(&format_stat(&t.get(k).unwrap())).unwrap());
    }
    out.push('}');
    out
}

fn sample_file(lines: usize) -> Vec<u8> {
    let names = ["Hamburg", "Bulawayo", "Palembang", "St. John's", "Cracow", "Bridgetown", "Istanbul", "Roseau"];
    let mut out = Vec::new();
    let mut x: u64 = 12345;
    for _ in 0..lines {
        x = x.wrapping_mul(6364136223846793005).wrapping_add(1442695040888963407);
        let name = names[(x >> 33) as usize % names.len()];
        let v = ((x >> 40) % 1999) as i64 - 999;
        out.extend_from_slice(name.as_bytes());
        out.push(b';');
        out.extend_from_slice(&format_tenths(v));
        out.push(b'\n');
    }
    out
}

fn total_count(t: &Table) -> u64 {
    summary(t).iter().map(|e| e.4 as u64).sum()
}

#[test]
fn scenario_one_worker() {
    let t = aggregate(SAMPLE, 1).unwrap();
    assert_eq!(
        summary(&t),
        vec![(b"A".to_vec(), 0, 32, 32, 2), (b"B".to_vec(), -15, -15, -15, 1)]
    );
    assert_eq!(mean_tenths(&t.get(b"A").unwrap()), 16);
    assert_eq!(mean_tenths(&t.get(b"B").unwrap()), -15);
    assert_eq!(render(&t), "{A=0.0/1.6/3.2, B=-1.5/-1.5/-1.5}");
}

#[test]
fn scenario_split_inside_last_line() {
    let one = aggregate(SAMPLE, 1).unwrap();
    // Offset 15 falls inside "A;0.0\n", which begins at offset 13.
    let first = scan_bytes(SAMPLE, 0, 15).unwrap();
    let second = scan_bytes(SAMPLE, 15, (SAMPLE.len() - 15) as u64).unwrap();
    assert_eq!(second.len(), 0);
    let merged = merge_tables(vec![first, second]).unwrap();
    assert_eq!(summary(&merged), summary(&one));
    let two = aggregate(SAMPLE, 2).unwrap();
    assert_eq!(summary(&two), summary(&one));
}

#[test]
fn every_split_offset_gives_the_same_table() {
    let one = summary(&aggregate(SAMPLE, 1).unwrap());
    for cut in 0..=SAMPLE.len() {
        let a = scan_bytes(SAMPLE, 0, cut as u64).unwrap();
        let b = scan_bytes(SAMPLE, cut, (SAMPLE.len() - cut) as u64).unwrap();
        let m = merge_tables(vec![a, b]).unwrap();
        assert_eq!(summary(&m), one, "cut at {}", cut);
    }
}

#[test]
fn one_and_eight_workers_agree() {
    let data = sample_file(2000);
    let one = summary(&aggregate(&data, 1).unwrap());
    let eight = summary(&aggregate(&data, 8).unwrap());
    assert_eq!(one, eight);
}

#[test]
fn partition_keeps_every_line_once() {
    let data = sample_file(300);
    let single = aggregate(&data, 1).unwrap();
    assert_eq!(total_count(&single), 300);
    for n in 1..=64u64 {
        let t = aggregate(&data, n).unwrap();
        assert_eq!(total_count(&t), 300, "workers {}", n);
        assert_eq!(summary(&t), summary(&single), "workers {}", n);
    }
}

#[test]
fn merge_order_does_not_matter() {
    let data = sample_file(500);
    let ranges = plan_ranges(data.len() as u64, 5);
    let parts = |order: &[usize]| {
        order
            .iter()
            .map(|&i| scan_bytes(&data, ranges[i].start as usize, ranges[i].length).unwrap())
            .collect::<Vec<Table>>()
    };
    let a = summary(&merge_tables(parts(&[0, 1, 2, 3, 4])).unwrap());
    let b = summary(&merge_tables(parts(&[4, 2, 0, 3, 1])).unwrap());
    let c = summary(&merge_tables(parts(&[1, 0, 4, 3, 2])).unwrap());
    assert_eq!(a, b);
    assert_eq!(a, c);
}

#[test]
fn size_multiple_of_workers_and_short_of_it() {
    // Twelve lines of six bytes: 72 bytes, a multiple of 4 workers; a last
    // line with a longer key makes the size 1, 2 or 3 bytes past a multiple,
    // i.e. 1 to 3 bytes short of the next one.
    for extra in 0..4usize {
        let mut data: Vec<u8> = Vec::new();
        for i in 0..12 {
            data.extend_from_slice(format!("k;{}.0\n", i % 10).as_bytes());
        }
        let key = "q".repeat(4 + extra);
        data.extend_from_slice(format!("{};1.0\n", key).as_bytes());
        assert_eq!(data.len() % 4, (extra + 1) % 4);
        let one = summary(&aggregate(&data, 1).unwrap());
        assert_eq!(one.iter().map(|e| e.4).sum::<u32>(), 13);
        assert_eq!(summary(&aggregate(&data, 4).unwrap()), one);
        let plain = &data[..72];
        let one = summary(&aggregate(plain, 1).unwrap());
        assert_eq!(summary(&aggregate(plain, 4).unwrap()), one);
    }
}

#[test]
fn last_range_reaches_end_of_input() {
    let r = plan_ranges(10, 3);
    assert_eq!(
        r,
        vec![
            ByteRange { start: 0, length: 3 },
            ByteRange { start: 3, length: 3 },
            ByteRange { start: 6, length: 4 }
        ]
    );
    let r = plan_ranges(12, 4);
    assert_eq!(r[3], ByteRange { start: 9, length: 3 });
    let r = plan_ranges(2, 5);
    assert_eq!(r[0], ByteRange { start: 0, length: 0 });
    assert_eq!(r[4], ByteRange { start: 0, length: 2 });
}

#[test]
fn empty_input_gives_empty_table() {
    let t = aggregate(b"", 1).unwrap();
    assert_eq!(t.len(), 0);
    let t = aggregate(b"", 8).unwrap();
    assert_eq!(t.len(), 0);
}

#[test]
fn truncated_last_line_is_an_error() {
    assert_eq!(aggregate(b"A;1.0\nB;2", 1).err(), Some(ScanError::Truncated));
    assert_eq!(aggregate(b"A;1.0\nB", 1).err(), Some(ScanError::Truncated));
}

#[test]
fn bad_value_is_an_error() {
    assert_eq!(aggregate(b"A;1x0\n", 1).err(), Some(ScanError::BadValue));
    assert_eq!(aggregate(b"A;1.0\nB;1234567890123456789.0\n", 1).err(), Some(ScanError::BadValue));
}

#[test]
fn overflowing_sum_is_an_error() {
    let mut data = Vec::new();
    for _ in 0..100 {
        data.extend_from_slice(b"A;9999999999999999.9\n");
    }
    assert_eq!(aggregate(&data, 1).err(), Some(ScanError::Overflow));
    assert_eq!(aggregate(&data, 2).err(), Some(ScanError::Overflow));
}

#[test]
fn parse_temp_values() {
    assert_eq!(parse_temp(b"-3.2"), -32);
    assert_eq!(parse_temp(b"3.2"), 32);
    assert_eq!(parse_temp(b"0.0"), 0);
    assert_eq!(parse_temp(b"-0.0"), 0);
    assert_eq!(parse_temp(b"99.9"), 999);
    assert_eq!(parse_temp(b"-12.3"), -123);
}

#[test]
fn parse_line_cases() {
    assert!(parse_line(b"Abc").unwrap().is_none());
    assert!(parse_line(b"Abc;1.5").unwrap().is_none());
    let l = parse_line(b"Abc;1.5\nX;2.0\n").unwrap().unwrap();
    assert_eq!(l.data_read, 8);
    assert_eq!(l.name, b"Abc");
    assert_eq!(l.temp, 15);
    assert_eq!(parse_line(b"Abc;1,5\n").err(), Some(LineError::BadValue));
    assert_eq!(parse_line(b"x\nA;1.0\n").err(), Some(LineError::MissingSeparator));
    assert_eq!(parse_line(b"x\n").err(), Some(LineError::MissingSeparator));
    let l = parse_line(b"A;12345678901234567.8\n").unwrap().unwrap();
    assert_eq!(l.temp, 123456789012345678);
    let l = parse_line(b"A;-922337203685477580.7\n").unwrap().unwrap();
    assert_eq!(l.temp, -9223372036854775807);
}

#[test]
fn round_trip_of_values() {
    for v in -9999i64..=9999 {
        let text = format_tenths(v);
        assert_eq!(parse_temp(&text), v);
        let again = format_tenths(parse_temp(&text));
        assert_eq!(again, text);
    }
    assert_eq!(format_tenths(parse_temp(b"-0.0")), b"0.0".to_vec());
}

#[test]
fn format_tenths_values() {
    assert_eq!(format_tenths(-15), b"-1.5".to_vec());
    assert_eq!(format_tenths(0), b"0.0".to_vec());
    assert_eq!(format_tenths(5), b"0.5".to_vec());
    assert_eq!(format_tenths(-5), b"-0.5".to_vec());
    assert_eq!(format_tenths(1234), b"123.4".to_vec());
    assert_eq!(format_tenths(i64::MIN), b"-922337203685477580.8".to_vec());
}

#[test]
fn mean_rounds_halves_away_from_zero() {
    let mut s = Stat::new(2);
    s.update(3);
    assert_eq!(mean_tenths(&s), 3);
    let mut s = Stat::new(-2);
    s.update(-3);
    assert_eq!(mean_tenths(&s), -3);
    let mut s = Stat::new(1);
    s.update(1);
    s.update(2);
    assert_eq!(mean_tenths(&s), 1);
}

#[test]
fn stat_update_and_join() {
    let mut a = Stat::new(32);
    a.update(0);
    assert_eq!((a.min, a.max, a.sum, a.count), (0, 32, 32, 2));
    let mut b = Stat::new(-15);
    b.update(40);
    a.join(&b);
    assert_eq!((a.min, a.max, a.sum, a.count), (-15, 40, 57, 4));
    assert!(!Stat::new(i64::MAX).fits_update(1));
    assert!(Stat::new(1).fits_join(&Stat::new(2)));
}

#[test]
fn table_record_and_merge() {
    let mut t = Table::new();
    t.record(b"x", 10).unwrap();
    t.record(b"y", -5).unwrap();
    t.record(b"x", 30).unwrap();
    let x = t.get(b"x").unwrap();
    assert_eq!((x.min, x.max, x.sum, x.count), (10, 30, 40, 2));
    let mut u = Table::new();
    u.record(b"x", -1).unwrap();
    u.record(b"z", 7).unwrap();
    t.merge_from(&u).unwrap();
    assert_eq!(t.len(), 3);
    let x = t.get(b"x").unwrap();
    assert_eq!((x.min, x.max, x.sum, x.count), (-1, 30, 39, 3));
    let mut big = Table::new();
    big.record(b"x", i64::MAX).unwrap();
    assert_eq!(big.record(b"x", 1), Err(Overflow));
    assert_eq!(big.get(b"x").unwrap().sum, i64::MAX);
}

#[test]
fn streaming_in_small_reads_matches_one_read() {
    let data = sample_file(400);
    let ranges = plan_ranges(data.len() as u64, 3);
    for piece in [1usize, 7, 64, 4096] {
        let mut parts = Vec::new();
        for r in &ranges {
            let mut reader = ChunkReader::new(r.start, r.length);
            let mut pos = r.start as usize;
            while pos < data.len() && !reader.is_done() {
                let end = (pos + piece).min(data.len());
                reader.feed(&data[pos..end]).unwrap();
                pos = end;
            }
            let t = reader.finish().unwrap();
            let whole = scan_bytes(&data, r.start as usize, r.length).unwrap();
            assert_eq!(summary(&t), summary(&whole));
            parts.push(t);
        }
        let merged = merge_tables(parts).unwrap();
        assert_eq!(summary(&merged), summary(&aggregate(&data, 1).unwrap()));
    }
}

#[test]
fn more_workers_than_bytes() {
    let one = summary(&aggregate(b"A;1.0\n", 1).unwrap());
    assert_eq!(one, vec![(b"A".to_vec(), 10, 10, 10, 1)]);
    for n in 2..=64u64 {
        assert_eq!(summary(&aggregate(b"A;1.0\n", n).unwrap()), one, "workers {}", n);
    }
    assert_eq!(summary(&aggregate(SAMPLE, 64).unwrap()), summary(&aggregate(SAMPLE, 1).unwrap()));
}

#[test]
fn value_grammar_is_checked() {
    assert!(is_valid_value(b"3.2"));
    assert!(is_valid_value(b"-0.5"));
    assert!(is_valid_value(b"12345678901234567.8"));
    assert!(is_valid_value(b"922337203685477580.7"));
    assert!(!is_valid_value(b"922337203685477580.8"));
    assert!(!is_valid_value(b""));
    assert!(!is_valid_value(b"12"));
    assert!(!is_valid_value(b"1.25"));
    assert!(!is_valid_value(b".5"));
    assert!(!is_valid_value(b"-.5"));
    assert!(!is_valid_value(b"1-2.0"));
    assert!(!is_valid_value(b"--1.0"));
    assert_eq!(aggregate(b"A;\n", 1).err(), Some(ScanError::BadValue));
    assert_eq!(aggregate(b"A;12\n", 1).err(), Some(ScanError::BadValue));
    assert_eq!(aggregate(b"A;1.25\n", 1).err(), Some(ScanError::BadValue));
}

#[test]
fn line_without_separator_is_an_error() {
    assert_eq!(aggregate(b"x\nA;1.0\n", 1).err(), Some(ScanError::MissingSeparator));
    assert_eq!(aggregate(b"A;1.0\nx\n", 1).err(), Some(ScanError::MissingSeparator));
}

#[test]
fn long_values_that_fit_are_accepted() {
    let t = aggregate(b"A;12345678901234567.8\n", 1).unwrap();
    assert_eq!(t.get(b"A").unwrap().sum, 123456789012345678);
}
