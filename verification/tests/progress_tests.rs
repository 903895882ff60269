use rsyncp::progress::{name_line_is_sliceable, Progress, ShownPath};

fn s(x: &str) -> String {
    x.to_string()
}

const MS: u128 = 1_000_000;

#[test]
fn name_lines() {
    let mut p = Progress::new();
    p.note_name_line(&s("send dir/file 1234"));
    assert_eq!(p.seen_path, "dir/file");
    assert!(!p.seen_is_del);
    p.note_name_line(&s("del. old/file"));
    assert_eq!(p.seen_path, "old/file");
    assert!(p.seen_is_del);
    p.note_name_line(&s("sending incremental file list"));
    assert_eq!(p.seen_path, "incremental file");
    assert!(!p.seen_is_del);
    // Without a space nothing changes.
    p.note_name_line(&s("sendfoo"));
    assert_eq!(p.seen_path, "incremental file");
    // A `send` path keeps its inner spaces.
    p.note_name_line(&s("send a b c 5"));
    assert_eq!(p.seen_path, "a b c");
}

#[test]
fn name_line_with_a_single_space() {
    assert!(!name_line_is_sliceable(&s("send x")));
    assert!(name_line_is_sliceable(&s("send x 1")));
    assert!(name_line_is_sliceable(&s("del. x")));
    assert!(name_line_is_sliceable(&s("sendx")));
}

#[test]
fn progress_lines() {
    let mut p = Progress::new();
    p.note_progress_line(&s("9 (xfr#1, ir-chk=7/20)"));
    assert_eq!((p.paths_remainder, p.paths_known), (Some(7), Some(20)));
    p.note_progress_line(&s("9 (xfr#1)"));
    assert_eq!((p.paths_remainder, p.paths_known), (Some(7), Some(20)));
    p.note_progress_line(&s("9 (xfr#2, to-chk=0/25)"));
    assert_eq!((p.paths_remainder, p.paths_known), (Some(0), Some(25)));
}

#[test]
fn redraw_timing() {
    let mut p = Progress::new();
    assert!(p.display_due(true, 0));
    assert!(!p.display_due(false, 0));
    assert_eq!(p.poll_timeout_ms(0), 250);
    p.mark_displayed(1000 * MS);
    assert!(!p.display_due(true, 1000 * MS + 249 * MS));
    assert!(p.display_due(true, 1000 * MS + 250 * MS));
    assert_eq!(p.poll_timeout_ms(1000 * MS + 100 * MS), 150);
    assert_eq!(p.poll_timeout_ms(1000 * MS + 100 * MS + 1), 149);
    assert_eq!(p.poll_timeout_ms(1000 * MS + 900 * MS), 0);
    // A clock reading before the last redraw waits the whole period.
    assert_eq!(p.poll_timeout_ms(0), 250);
    p.mark_displayed(u128::MAX - 5);
    assert!(p.display_due(true, 0));
}

#[test]
fn eta_requests() {
    let mut p = Progress::new();
    assert_eq!(p.eta_request(None), None);
    assert_eq!(p.eta_request(Some(0)), None);
    assert_eq!(p.eta_request(Some(50)), Some((0, 50)));
    p.note_progress_line(&s("(xfr#1, ir-chk=30/80)"));
    assert_eq!(p.eta_request(Some(50)), Some((50, 80)));
    assert_eq!(p.eta_request(Some(100)), Some((50, 100)));
    assert_eq!(p.eta_placeholder(), "(80 files) ??:??");
    assert_eq!(Progress::new().eta_placeholder(), "??:??");
}

#[test]
fn shown_path_lifecycle() {
    let mut p = Progress::new();
    p.refresh_shown_path(0);
    assert!(p.shown.is_none());
    p.note_name_line(&s("send a 1"));
    p.refresh_shown_path(10 * MS);
    let sp = p.shown.as_ref().unwrap();
    assert_eq!((sp.since, sp.path.as_str(), sp.is_del), (10 * MS, "a", false));
    assert_eq!(p.seen_path, "");
    // Another path waits while the first has been shown for 250 ms or less.
    p.note_name_line(&s("del. b"));
    p.refresh_shown_path(260 * MS);
    assert_eq!(p.shown.as_ref().unwrap().path, "a");
    assert_eq!(p.seen_path, "b");
    // Then it takes over.
    p.refresh_shown_path(261 * MS);
    let sp = p.shown.as_ref().unwrap();
    assert_eq!((sp.since, sp.path.as_str(), sp.is_del), (261 * MS, "b", true));
    // With nothing waiting, a path goes after 750 ms.
    p.refresh_shown_path(1011 * MS);
    assert!(p.shown.is_some());
    p.refresh_shown_path(1012 * MS);
    assert!(p.shown.is_none());
}

fn shown(path: &str, is_del: bool) -> Progress {
    let mut p = Progress::new();
    p.shown = Some(ShownPath { since: 0, path: s(path), is_del });
    p
}

#[test]
fn status_line_without_path() {
    let p = Progress::new();
    assert_eq!(
        p.status_line(12, &s("01:00")).unwrap(),
        "\r       01:00\x1b[K"
    );
    assert_eq!(p.status_line(2, &s("01:00")).unwrap(), "\r01:00\x1b[K");
}

#[test]
fn status_line_with_path() {
    let p = shown("abc", false);
    assert_eq!(
        p.status_line(20, &s("01:00")).unwrap(),
        "\r\x1b[32mabc\x1b[0m            01:00\x1b[K"
    );
    let p = shown("abc", true);
    assert_eq!(
        p.status_line(20, &s("01:00")).unwrap(),
        "\r\x1b[31mabc\x1b[0m            01:00\x1b[K"
    );
}

#[test]
fn status_line_shortens_long_path() {
    let p = shown("abcdefghijklmnopqrstuvwxyz", false);
    assert_eq!(
        p.status_line(20, &s("01:00")).unwrap(),
        "\r\x1b[32m...pqrstuvwxyz\x1b[0m 01:00\x1b[K"
    );
}

#[test]
fn status_line_too_narrow_for_path() {
    let p = shown("abcdefghijklmnopqrstuvwxyz", false);
    assert_eq!(
        p.status_line(10, &s("01:00")).unwrap(),
        "\r\x1b[32m01:00\x1b[0m 01:00\x1b[K"
    );
    // Narrower than the estimate itself: no line can be formed.
    assert_eq!(p.status_line(4, &s("01:00")), None);
}

#[test]
fn status_line_measures_display_width() {
    // Three wide characters take six columns.
    let p = shown("日本語", false);
    assert_eq!(
        p.status_line(20, &s("01:00")).unwrap(),
        "\r\x1b[32m日本語\x1b[0m         01:00\x1b[K"
    );
    // Ten wide characters fill twenty columns; shortening would need eleven characters.
    let p = shown("日日日日日日日日日日", false);
    assert_eq!(p.status_line(20, &s("01:00")), None);
}

#[test]
fn no_estimate_without_previous_run() {
    let mut p = Progress::new();
    p.note_progress_line(&s("(xfr#1, ir-chk=3/9)"));
    assert_eq!(p.eta_request(None), None);
    assert_eq!(p.eta_placeholder(), "(9 files) ??:??");
}
