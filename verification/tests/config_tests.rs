use rsyncp::config::{fnv1a, Config, ConfigError, USAGE};

fn args(a: &[&str]) -> Vec<String> {
    a.iter().map(|x| x.to_string()).collect()
}

fn parse(a: &[&str]) -> Result<Config, ConfigError> {
    Config::new(args(a), false)
}

fn refused(a: &[&str]) -> ConfigError {
    match parse(a) {
        Ok(_) => panic!("accepted {a:?}"),
        Err(e) => e,
    }
}

#[test]
fn args_basic() {
    let cfg = Config::new(["", "--", "a1", "a2"].map(|x| x.to_owned()).to_vec(), false).unwrap();
    assert_eq!(cfg.cookie, "h6150226604729619776");
    assert_eq!(cfg.rsync_args.as_slice(), ["a1", "a2"]);

    let cfg = Config::new(
        ["", "-x", "--f=g", "--", "a1", "--f=g", "a2"]
            .map(|x| x.to_owned())
            .to_vec(),
        false,
    )
    .unwrap();
    assert_eq!(cfg.cookie, "h6150226604729619776");
    assert_eq!(cfg.rsync_args.as_slice(), ["a1", "--f=g", "a2"]);

    let cfg = Config::new(
        ["", "-x", "--x=y", "--", "a1", "--f=g", "a2"]
            .map(|x| x.to_owned())
            .to_vec(),
        false,
    )
    .unwrap();
    assert_eq!(cfg.cookie, "h3437211982339263002");
    assert_eq!(cfg.rsync_args.as_slice(), ["a1", "--f=g", "a2"]);

    let cfg = Config::new(
        ["", "-c", "d", "--", "a1", "a2"].map(|x| x.to_owned()).to_vec(),
        false,
    )
    .unwrap();
    assert_eq!(cfg.cookie, "ud");
}

#[test]
fn args_h() {
    let e = refused(&["", "-h"]);
    assert_eq!(e, ConfigError::Usage(0));
    assert!(e.message().starts_with("usage: rsyncp"));
    assert_eq!(e.exit_code(), 0);
}

#[test]
fn args_unknown() {
    let e = refused(&["", "-unknown"]);
    assert_eq!(e, ConfigError::Usage(1));
    assert!(e.message().starts_with("usage: rsyncp"));
}

#[test]
fn args_c_only_once() {
    assert_eq!(refused(&["", "-c", "a", "-c", "b"]), ConfigError::Usage(1));
}

#[test]
fn args_c_x_mutually_exclusive1() {
    assert_eq!(refused(&["", "-c", "a", "-x", "b"]), ConfigError::Usage(1));
}

#[test]
fn args_c_x_mutually_exclusive2() {
    assert_eq!(refused(&["", "-x", "a", "-c", "b"]), ConfigError::Usage(1));
}

#[test]
fn args_x_missing() {
    assert_eq!(refused(&["", "-x"]), ConfigError::Usage(1));
}

#[test]
fn args_no_human_readable1() {
    let e = refused(&["", "--", "--human-readable"]);
    assert_eq!(e, ConfigError::HumanReadable);
    assert!(e.message().starts_with("error: passing -h/--human-readable"));
}

#[test]
fn args_no_human_readable2() {
    let e = refused(&["", "--", "-h"]);
    assert!(e.message().starts_with("error: passing -h/--human-readable"));
}

#[test]
fn args_no_human_readable3() {
    let e = refused(&["", "--", "-ah"]);
    assert!(e.message().starts_with("error: passing -h/--human-readable"));
}

#[test]
fn args_no_human_readable_allows_through_other_h() {
    Config::new(["", "--", "--ahb"].map(|x| x.to_owned()).to_vec(), false).unwrap();
}

#[test]
fn args_no_info() {
    let e = refused(&["", "--", "--info=x"]);
    assert!(e.message().starts_with("error: passing --info"));
}

#[test]
fn args_no_itemise_changes1() {
    let e = refused(&["", "--", "--itemize-changes"]);
    assert!(e.message().starts_with("error: passing -i/--itemize-changes"));
}

#[test]
fn args_no_itemise_changes2() {
    let e = refused(&["", "--", "-i"]);
    assert!(e.message().starts_with("error: passing -i/--itemize-changes"));
}

#[test]
fn args_no_itemise_changes3() {
    let e = refused(&["", "--", "-ai"]);
    assert!(e.message().starts_with("error: passing -i/--itemize-changes"));
}

#[test]
fn args_no_itemise_changes_allows_through_other_i() {
    Config::new(["", "--", "--aib"].map(|x| x.to_owned()).to_vec(), false).unwrap();
}

#[test]
fn args_no_outbuf() {
    let e = refused(&["", "--", "--outbuf=none"]);
    assert!(e.message().starts_with("error: passing --outbuf"));
}

#[test]
fn args_no_out_format() {
    let e = refused(&["", "--", "--out-format=x"]);
    assert!(e.message().starts_with("error: passing --out-format"));
}

#[test]
fn args_version() {
    let e = refused(&["", "-i", "--", "a"]);
    assert_eq!(e, ConfigError::Version);
    assert_eq!(e.exit_code(), 0);
    assert_eq!(e.message(), "rsyncp version ");
}

#[test]
fn args_without_separator_or_rsync_args() {
    assert_eq!(refused(&[""]), ConfigError::Usage(1));
    assert_eq!(refused(&[]), ConfigError::Usage(1));
    assert_eq!(refused(&["", "--"]), ConfigError::Usage(1));
    assert_eq!(refused(&["", "-c"]), ConfigError::Usage(1));
}

#[test]
fn args_first_objection_wins() {
    // The arguments are checked in order, and within one argument -h comes first.
    assert_eq!(refused(&["", "--", "--outbuf=x", "--info=y"]), ConfigError::Outbuf);
    assert_eq!(refused(&["", "--", "-hi"]), ConfigError::HumanReadable);
    assert_eq!(refused(&["", "--", "-e=ssh"]), ConfigError::HumanReadable);
}

#[test]
fn args_options_after_separator_go_to_rsync() {
    let cfg = parse(&["", "--", "-c", "x"]).unwrap();
    assert_eq!(cfg.rsync_args.as_slice(), ["-c", "x"]);
    assert_eq!(cfg.rsync_name, "rsync");
}

#[test]
fn args_rsync_name() {
    let cfg = parse(&["", "-r", "/usr/local/bin/rsync", "--", "a"]).unwrap();
    assert_eq!(cfg.rsync_name, "/usr/local/bin/rsync");
    let cfg = parse(&["", "-r", "a", "-r", "b", "--", "a"]).unwrap();
    assert_eq!(cfg.rsync_name, "b");
    assert_eq!(refused(&["", "-r"]), ConfigError::Usage(1));
    // The rsync program does not take part in the cookie.
    assert_eq!(parse(&["", "-r", "x", "--", "a1", "a2"]).unwrap().cookie, "h6150226604729619776");
}

#[test]
fn args_show_progress_is_kept() {
    let cfg = Config::new(args(&["", "--", "a"]), true).unwrap();
    assert!(cfg.show_progress);
}

#[test]
fn user_cookie_and_hash_cookie_differ() {
    // A user cookie that looks like a hash cookie still differs from it.
    let user = parse(&["", "-c", "h6150226604729619776", "--", "a1", "a2"]).unwrap();
    let hashed = parse(&["", "--", "a1", "a2"]).unwrap();
    assert_ne!(user.cookie, hashed.cookie);
    assert_eq!(user.cookie, "uh6150226604729619776");
}

#[test]
fn excluded_arg_is_left_out_of_cookie() {
    let with_x = parse(&["", "-x", "--f=g", "--", "a1", "--f=g", "a2", "--f=g"]).unwrap();
    let without = parse(&["", "--", "a1", "a2"]).unwrap();
    assert_eq!(with_x.cookie, without.cookie);
}

#[test]
fn fnv1a_known_values() {
    assert_eq!(fnv1a(&Vec::new()), 0xCBF29CE484222325);
    assert_eq!(fnv1a(&args(&["a"])), 0xaf63dc4c8601ec8c);
    // Only the bytes count, not where one string ends.
    assert_eq!(fnv1a(&args(&["a1", "a2"])), fnv1a(&args(&["a1a2"])));
    assert_eq!(fnv1a(&args(&["a1", "a2"])), 6150226604729619776);
    // Non-ASCII text is hashed by its UTF-8 bytes.
    assert_eq!(fnv1a(&args(&["é"])), fnv1a_bytes("é".as_bytes()));
}

fn fnv1a_bytes(b: &[u8]) -> u64 {
    let mut h: u64 = 0xCBF29CE484222325;
    for x in b {
        h ^= u64::from(*x);
        h = h.wrapping_mul(0x100000001B3);
    }
    h
}

#[test]
fn usage_text() {
    assert!(USAGE.starts_with("usage: rsyncp"));
    assert_eq!(ConfigError::Info.exit_code(), 1);
}

#[test]
fn several_exclusions_and_cookie_forms() {
    let cfg = parse(&["", "-x", "b", "-x", "c", "--", "a", "b", "c", "d"]).unwrap();
    assert_eq!(cfg.cookie, format!("h{}", fnv1a(&args(&["a", "d"]))));
    assert!(cfg.cookie[1..].chars().all(|c| c.is_ascii_digit()));
    let cfg = parse(&["", "-c", "my cookie", "--", "a"]).unwrap();
    assert_eq!(cfg.cookie, "umy cookie");
    assert_eq!(fnv1a(&args(&["ab", "c"])), fnv1a(&args(&["a", "bc"])));
}
