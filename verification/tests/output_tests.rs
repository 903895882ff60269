use rsyncp::output::{progress_counts_exec, rsync_lines, slashed_digits};

#[test]
fn test_slashed_digits() {
    assert_eq!(slashed_digits(""), None);
    assert_eq!(slashed_digits("/"), None);
    assert_eq!(slashed_digits("a/"), None);
    assert_eq!(slashed_digits("/b"), None);
    assert_eq!(slashed_digits("a/b"), None);
    assert_eq!(slashed_digits("0/"), None);
    assert_eq!(slashed_digits("/0"), None);
    assert_eq!(slashed_digits("0/0"), Some((0, 0)));
    assert_eq!(slashed_digits("1/2"), Some((1, 2)));
    assert_eq!(slashed_digits("1234/5678"), Some((1234, 5678)));
    assert_eq!(slashed_digits("1234a/5678"), None);
    assert_eq!(slashed_digits("1234/5678a"), Some((1234, 5678)));
}

#[test]
fn slashed_digits_edges() {
    // A leading `+` is accepted before the slash, as `str::parse` accepts it.
    assert_eq!(slashed_digits("+7/8"), Some((7, 8)));
    assert_eq!(slashed_digits("7/+8"), None);
    assert_eq!(slashed_digits("18446744073709551615/1"), Some((u64::MAX, 1)));
    assert_eq!(slashed_digits("18446744073709551616/1"), None);
    assert_eq!(slashed_digits("1/18446744073709551616"), None);
    assert_eq!(slashed_digits("1/2/3"), Some((1, 2)));
    assert_eq!(slashed_digits("12/34)"), Some((12, 34)));
    assert_eq!(slashed_digits("１/2"), None);
}

fn line(s: &str) -> String {
    s.to_string()
}

#[test]
fn progress_counts_from_lines() {
    assert_eq!(
        progress_counts_exec(&line("  1,234  10%  1.00MB/s  0:00:01 (xfr#5, ir-chk=1000/2000)")),
        Some((1000, 2000))
    );
    assert_eq!(
        progress_counts_exec(&line("  1,234 100%  1.00MB/s  0:00:01 (xfr#9, to-chk=3/10)")),
        Some((3, 10))
    );
    // `ir-chk=` is looked at first; when its counts do not read, `to-chk=` is not tried.
    assert_eq!(progress_counts_exec(&line("(xfr#1, ir-chk=x/2, to-chk=1/2)")), None);
    assert_eq!(progress_counts_exec(&line("(xfr#1)")), None);
}

/// The backward scan, written plainly over bytes.
fn scan(buf: &[u8]) -> (Option<String>, Option<String>) {
    let mut last_name = None;
    let mut last_progress = None;
    let mut i = buf.len();
    let mut last_end = i;
    while i > 0 && (last_name.is_none() || last_progress.is_none()) {
        i -= 1;
        if buf[i] == b'\n' || buf[i] == b'\r' {
            if i + 1 < last_end {
                if let Ok(line) = std::str::from_utf8(&buf[i + 1..last_end]) {
                    if line.starts_with("send") || line.starts_with("del.") {
                        if last_name.is_none() {
                            last_name = Some(line.to_string());
                        }
                    } else if last_progress.is_none() && line.contains("(xfr#") {
                        last_progress = Some(line.to_string());
                    }
                }
            }
            while i > 0 && (buf[i] == b'\n' || buf[i] == b'\r' || buf[i] == b' ') {
                i -= 1;
            }
            last_end = i + 1;
        }
    }
    (last_name, last_progress)
}

#[test]
fn rsync_lines_latest_lines() {
    let buf = b"send a/b 10\n  5 10% (xfr#1, to-chk=3/10)\rsend c/d 20\n";
    let (name, progress) = rsync_lines(buf);
    assert_eq!(name.as_deref(), Some("send c/d 20"));
    assert_eq!(progress.as_deref(), Some("  5 10% (xfr#1, to-chk=3/10)"));
    assert_eq!((name, progress), scan(buf));
}

#[test]
fn rsync_lines_first_line_needs_a_break_before_it() {
    // Text before the first line break is never a line.
    assert_eq!(rsync_lines(b"send a 1"), (None, None));
    assert_eq!(rsync_lines(b"\nsend a 1"), (Some("send a 1".to_string()), None));
    assert_eq!(rsync_lines(b""), (None, None));
}

#[test]
fn rsync_lines_skips_invalid_utf8() {
    let buf = b"\ndel. good\n\ndel. \xff\xfe\n";
    let (name, _) = rsync_lines(buf);
    assert_eq!(name.as_deref(), Some("del. good"));
    assert_eq!(rsync_lines(buf), scan(buf));
}

#[test]
fn rsync_lines_agrees_with_plain_scan() {
    let pieces: [&[u8]; 12] = [
        b"send x 1", b"del. y", b"\n", b"\r", b" ", b"  12 (xfr#3, ir-chk=5/9)", b"other",
        b"\n\n", b"\r\n", b"\xc3\xa9", b"\xc3", b"sending incremental file list",
    ];
    let mut x: u64 = 12345;
    for _ in 0..3000 {
        let mut buf: Vec<u8> = Vec::new();
        x ^= x << 13;
        x ^= x >> 7;
        x ^= x << 17;
        let n = (x % 9) as usize;
        let mut y = x;
        for _ in 0..n {
            buf.extend_from_slice(pieces[(y % 12) as usize]);
            y /= 12;
            if y == 0 {
                y = x.rotate_left(17) | 1;
            }
        }
        assert_eq!(rsync_lines(&buf), scan(&buf), "buf = {buf:?}");
    }
}

#[test]
fn slashed_digits_reads_back_written_counts() {
    for (n, m) in [(0u64, 0u64), (7, 1234), (u64::MAX, u64::MAX)] {
        for rest in ["", ")", " files", "/9"] {
            assert_eq!(slashed_digits(&format!("{n}/{m}{rest}")), Some((n, m)));
        }
    }
}

#[test]
fn found_lines_have_their_kind() {
    let buf = b"\nsend a 1\nxx (xfr#1, ir-chk=1/2)\ndel. zz\nnothing\n";
    let (name, progress) = rsync_lines(buf);
    let name = name.unwrap();
    assert!(name.starts_with("send") || name.starts_with("del."));
    let progress = progress.unwrap();
    assert!(progress.contains("(xfr#"));
    assert_eq!(progress_counts_exec(&progress), Some((1, 2)));
}

#[test]
fn rsync_lines_keep_whole_lines() {
    assert_eq!(rsync_lines(b"\nsend a 12\nx").0.as_deref(), Some("send a 12"));
    assert_eq!(rsync_lines(b"\ndel. a b  \r\n  \n").0.as_deref(), Some("del. a b"));
    // A buffer without line breaks holds no line.
    assert_eq!(rsync_lines(b"send a 1 (xfr#1)"), (None, None));
}

#[test]
fn appended_non_digits_change_nothing() {
    for s in ["1/2", "+3/45", "7/8x"] {
        let r = slashed_digits(s);
        for t in ["", ")", " rest", "/9"] {
            assert_eq!(slashed_digits(&format!("{s}{t}")), r);
        }
    }
}
