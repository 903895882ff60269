use rsyncp::config::Config;
use rsyncp::runner::{cookie_contents, eta_window_secs, state_dir, whole_seconds, Runner};

fn runner() -> Runner {
    let cfg = Config::new(vec!["".to_string(), "--".to_string(), "-a".to_string(), "x".to_string()], false)
        .unwrap();
    Runner::new(cfg, 80)
}

#[test]
fn new_runner() {
    let r = runner();
    assert_eq!(r.termw, 80);
    assert_eq!(r.prev_paths, None);
}

#[test]
fn cookie_round_trip() {
    let r = runner();
    for (p, e) in [(0u64, 0u64), (12, 345), (u64::MAX, 1), (7, u64::MAX)] {
        let c = cookie_contents(p, e);
        assert_eq!(c, format!("RSYNCP01\n{p}\n{e}"));
        assert_eq!(r.parse_cookie(&c), Some((p, e)));
    }
}

#[test]
fn parse_cookie_cases() {
    let r = runner();
    assert_eq!(r.parse_cookie("RSYNCP01\n5\n6"), Some((5, 6)));
    assert_eq!(r.parse_cookie("RSYNCP01\n5\n6\n"), Some((5, 6)));
    assert_eq!(r.parse_cookie("RSYNCP01\r\n5\r\n6\r\n"), Some((5, 6)));
    assert_eq!(r.parse_cookie("RSYNCP01\n+5\n6"), Some((5, 6)));
    assert_eq!(r.parse_cookie("RSYNCP01\n5\n6\n\n"), None);
    assert_eq!(r.parse_cookie("RSYNCP01\n5\n6\n7"), None);
    assert_eq!(r.parse_cookie("RSYNCP02\n5\n6"), None);
    assert_eq!(r.parse_cookie("RSYNCP01\n5"), None);
    assert_eq!(r.parse_cookie("RSYNCP01\n-5\n6"), None);
    assert_eq!(r.parse_cookie(""), None);
}

#[test]
fn lines_follow_str_lines() {
    let r = runner();
    // Whatever `str::lines` makes of a trailing carriage return, so does parse_cookie.
    for text in ["RSYNCP01\n5\n6\r", "RSYNCP01\n5\r\n6", "RSYNCP01\r\r\n5\n6", "RSYNCP01\n5\n\r6"] {
        let ls: Vec<&str> = text.lines().collect();
        let expected = if ls.len() == 3 && ls[0] == "RSYNCP01" {
            match (ls[1].parse::<u64>(), ls[2].parse::<u64>()) {
                (Ok(a), Ok(b)) => Some((a, b)),
                _ => None,
            }
        } else {
            None
        };
        assert_eq!(r.parse_cookie(text), expected, "text = {text:?}");
    }
}

#[test]
fn note_previous_run_remembers_paths() {
    let mut r = runner();
    assert_eq!(r.note_previous_run(b"junk"), None);
    assert_eq!(r.prev_paths, None);
    assert_eq!(r.note_previous_run(b"RSYNCP01\n40\n900"), Some((40, 900)));
    assert_eq!(r.prev_paths, Some(40));
    assert_eq!(r.note_previous_run(b"RSYNCP01\n41\n9\xff"), None);
    assert_eq!(r.prev_paths, Some(40));
}

#[test]
fn parse_cookie_bytes_wants_utf8() {
    let r = runner();
    assert_eq!(r.parse_cookie_bytes(b"RSYNCP01\n5\n6\n"), Some((5, 6)));
    assert_eq!(r.parse_cookie_bytes(b"RSYNCP01\r\n12\r\n34"), Some((12, 34)));
    assert_eq!(r.parse_cookie_bytes(b"RSYNCP01\n5\n6\xff"), None);
    assert_eq!(r.parse_cookie_bytes(b"\xc3\x28RSYNCP01\n5\n6"), None);
    assert_eq!(r.parse_cookie_bytes(b"RSYNCP01\n5"), None);
    assert_eq!(r.parse_cookie_bytes(b""), None);
}

#[test]
fn rsync_command() {
    let r = runner();
    assert_eq!(
        r.rsync_command_args(),
        ["--info=name,progress2", "--outbuf=line", "--out-format=%o %n %l", "-a", "x"]
    );
}

#[test]
fn parse_rsync_method() {
    let r = runner();
    let (name, progress) = r.parse_rsync(b"\ndel. a\n");
    assert_eq!(name.as_deref(), Some("del. a"));
    let (name, _) = r.parse_rsync(b"\ndel. a");
    assert_eq!(name.as_deref(), Some("del. a"));
    assert_eq!(progress, None);
}

#[test]
fn eta_window() {
    assert_eq!(eta_window_secs(0), 8);
    assert_eq!(eta_window_secs(899), 8);
    assert_eq!(eta_window_secs(1500), 15);
    assert_eq!(eta_window_secs(3099), 30);
    assert_eq!(eta_window_secs(u64::MAX), 30);
}

#[test]
fn elapsed_rounding() {
    assert_eq!(whole_seconds(5, 0), 5);
    assert_eq!(whole_seconds(5, 1), 6);
    assert_eq!(whole_seconds(u64::MAX, 0), u64::MAX);
}

#[test]
fn state_directory() {
    assert_eq!(
        state_dir(Some("/x/state".to_string()), Some("/home/u".to_string())).unwrap(),
        ["/x/state", "rsyncp"]
    );
    assert_eq!(
        state_dir(None, Some("/home/u".to_string())).unwrap(),
        ["/home/u", ".local", "state", "rsyncp"]
    );
    assert_eq!(state_dir(None, None), None);
    // An empty XDG_STATE_HOME counts as unset.
    assert_eq!(
        state_dir(Some(String::new()), Some("/home/u".to_string())).unwrap(),
        ["/home/u", ".local", "state", "rsyncp"]
    );
    assert_eq!(state_dir(Some(String::new()), None), None);
}
