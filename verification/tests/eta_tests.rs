use rsyncp::eta::{eta_string, Sample, SampleWindow, Span};
use std::time::Duration;

fn span(d: Duration) -> Span {
    Span::new(d.as_secs(), d.subsec_nanos())
}

#[test]
fn test_eta_to_string() {
    assert_eq!(eta_string(span(Duration::ZERO)), "00:00");

    // HH:MM
    assert_eq!(eta_string(span(Duration::from_millis(999))), "00:01");
    assert_eq!(eta_string(span(Duration::from_millis(1001))), "00:02");
    assert_eq!(eta_string(span(Duration::from_secs(61))), "01:01");
    assert_eq!(eta_string(span(Duration::from_secs(59 * 60 + 59))), "59:59");

    // Hours
    assert_eq!(eta_string(span(Duration::from_secs(60 * 60 - 1))), "59:59");
    assert_eq!(eta_string(span(Duration::from_secs(60 * 60))), "1.0 hours");
    assert_eq!(
        eta_string(span(Duration::from_secs(60 * 60 - 1) + Duration::from_nanos(1))),
        "1.0 hours"
    );
    assert_eq!(eta_string(span(Duration::from_secs(90 * 60))), "1.5 hours");
    assert_eq!(
        eta_string(span(Duration::from_secs(23 * 60 * 60 + 30 * 60))),
        "23.5 hours"
    );
    assert_eq!(
        eta_string(span(Duration::from_secs(24 * 60 * 60 - 1))),
        "24.0 hours"
    );

    // Days
    assert_eq!(eta_string(span(Duration::from_secs(24 * 60 * 60))), "1.0 days");
    assert_eq!(
        eta_string(span(Duration::from_secs(24 * 60 * 60 - 1) + Duration::from_nanos(1))),
        "1.0 days"
    );
    assert_eq!(eta_string(span(Duration::from_secs(30 * 60 * 60))), "1.2 days");
    assert_eq!(eta_string(span(Duration::from_secs(48 * 60 * 60))), "2.0 days");
}

/// What the text of an hour or more is meant to be: the quotient as f64, one decimal.
fn float_text(secs: u64, unit: f64, word: &str) -> String {
    let x = secs as f64 / unit;
    format!("{x:.1} {word}")
}

#[test]
fn hours_match_float_formatting_everywhere() {
    for secs in 3600..86400u64 {
        assert_eq!(
            eta_string(Span::new(secs, 0)),
            float_text(secs, 3_600.0, "hours"),
            "secs = {secs}"
        );
    }
}

#[test]
fn days_match_float_formatting() {
    let mut probes: Vec<u64> = Vec::new();
    for secs in 86400..400_000u64 {
        probes.push(secs);
    }
    // Around ties and powers of two, and the largest values.
    for k in 1..2000u64 {
        let base = k * 4320;
        probes.push(86400 + base);
        probes.push(86400 + base + 1);
        probes.push(86400 + base - 1);
    }
    for e in 17..64u32 {
        let p = 1u64 << e;
        for d in [0u64, 1, 2, 3, 1023, 1024, 1025, 2047, 2048, 2049] {
            probes.push(p.wrapping_add(d));
            probes.push(p.wrapping_sub(d));
        }
    }
    let mut x: u64 = 0x9E37_79B9_7F4A_7C15;
    for _ in 0..20000 {
        x ^= x << 13;
        x ^= x >> 7;
        x ^= x << 17;
        probes.push(x);
        probes.push(x >> (x % 40));
    }
    probes.push(u64::MAX);
    probes.push(u64::MAX - 1);
    for secs in probes {
        if secs < 86400 {
            continue;
        }
        assert_eq!(
            eta_string(Span::new(secs, 0)),
            float_text(secs, 86_400.0, "days"),
            "secs = {secs}"
        );
    }
}

#[test]
fn fractions_round_up_and_saturate() {
    assert_eq!(eta_string(Span::new(59, 1)), "01:00");
    assert_eq!(eta_string(Span::new(3599, 999_999_999)), "1.0 hours");
    assert_eq!(
        eta_string(Span::new(u64::MAX, 5)),
        float_text(u64::MAX, 86_400.0, "days")
    );
}

#[test]
fn exact_tie_rounds_to_even() {
    // 1.25 and 1.75 hours are exact binary fractions: ties go to the even digit.
    assert_eq!(eta_string(Span::new(4500, 0)), "1.2 hours");
    assert_eq!(eta_string(Span::new(6300, 0)), "1.8 hours");
}

#[test]
fn window_keeps_recent_samples() {
    let mut w = SampleWindow::new(10);
    assert_eq!(w.span(), None);
    w.record(1, 0);
    assert_eq!(w.span(), Some((0, 0)));
    w.record(5, 4);
    assert_eq!(w.span(), Some((4, 4)));
    w.record(9, 12);
    // The sample at 0 is 12 old, beyond the window of 10; the one at 4 is kept.
    assert_eq!(w.samples.len(), 2);
    assert_eq!(w.samples[0], Sample { paths_done: 5, elapsed: 4 });
    assert_eq!(w.span(), Some((4, 8)));
    w.record(10, 100);
    // Everything older is out of the window, but one earlier sample always stays.
    assert_eq!(w.samples.len(), 2);
    assert_eq!(w.span(), Some((1, 88)));
}

#[test]
fn window_differences_are_floored_at_zero() {
    let mut w = SampleWindow::new(1_000);
    w.record(10, 50);
    w.record(3, 20);
    assert_eq!(w.span(), Some((0, 0)));
}
