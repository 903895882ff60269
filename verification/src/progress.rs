//! What the progress loop decides between reads of rsync's output: the file counts and
//! file names taken from rsync's lines, when to redraw, which path to show, and the
//! status line itself. Times are nanoseconds since rsync was started.
use vstd::prelude::*;
use crate::output::{progress_counts, progress_counts_exec};
use crate::text::{
    decimal, find, find_exec, push_char, push_chars, push_decimal, push_str, rfind_char,
    rfind_char_exec, starts_with, starts_with_exec, string_of, to_chars,
};
use crate::width::{display_width, str_width};

verus! {

/// The display is not redrawn more often than this (250 ms).
pub const MIN_DISPLAY_UPDATE_NS: u128 = 250_000_000;

/// A shown path stays at least this long before another replaces it (250 ms).
pub const MIN_PATH_DISPLAY_NS: u128 = 250_000_000;

/// A shown path is dropped after this long if no other has been seen (750 ms).
pub const MAX_PATH_DISPLAY_NS: u128 = 750_000_000;

/// The marker put before a path that had to be shortened.
pub const PATH_TOO_LONG: &'static str = "...";

/// Between the path and the time estimate.
pub const OUTPUT_SEP: &'static str = " ";

/// Terminal colours for sent files, deleted files, and back to normal.
pub const TERM_GREEN: &'static str = "\x1b[32m";

pub const TERM_RED: &'static str = "\x1b[31m";

pub const TERM_RESET: &'static str = "\x1b[0m";

/// Clears the rest of the terminal line.
pub const CLEAR_TO_EOL: &'static str = "\x1b[K";

/// The path on the status line, since when, and whether it was deleted.
pub struct ShownPath {
    pub since: u128,
    pub path: String,
    pub is_del: bool,
}

/// The state the progress loop keeps between reads.
pub struct Progress {
    /// The latest path rsync reported that has not been shown yet (empty if none).
    pub seen_path: String,
    /// Whether that path was deleted rather than sent.
    pub seen_is_del: bool,
    /// The number of paths rsync knows of, once a progress line said so.
    pub paths_known: Option<u64>,
    /// The number of those still to check.
    pub paths_remainder: Option<u64>,
    /// The path on the status line.
    pub shown: Option<ShownPath>,
    /// When the status line was last drawn.
    pub last_display: Option<u128>,
}

// ---------------------------------------------------------------------------
// Specification
// ---------------------------------------------------------------------------

/// `a - b`, or 0 if `b > a`.
pub open spec fn sat_sub(a: int, b: int) -> int {
    if a > b {
        a - b
    } else {
        0
    }
}

/// A `send` line whose only space is its first one: the path would be
/// `line[first_space + 1..last_space]`, an inverted range, so no path can be taken.
pub open spec fn name_line_unsliceable(line: Seq<char>) -> bool {
    match find(line, " "@) {
        Some(l) => starts_with(line, "send"@) && (match rfind_char(line, ' ') {
            Some(r) => r < l + 1,
            None => false,
        }),
        None => false,
    }
}

/// The unshown path and its deletion flag after a name line: a `send` line gives the
/// text between its first and last spaces, a `del.` line the text after its first space.
/// A line without a space changes nothing.
pub open spec fn after_name_line(line: Seq<char>, path: Seq<char>, is_del: bool) -> (
    Seq<char>,
    bool,
) {
    match find(line, " "@) {
        None => (path, is_del),
        Some(l) => if starts_with(line, "send"@) && rfind_char(line, ' ') is Some {
            (line.subrange(l + 1, rfind_char(line, ' ')->Some_0), false)
        } else if starts_with(line, "del."@) {
            (line.subrange(l + 1, line.len() as int), true)
        } else {
            (Seq::empty(), is_del)
        },
    }
}

/// How long (in whole milliseconds) to wait for output before the next redraw is due.
pub open spec fn poll_timeout_spec(last_display: Option<u128>, now: u128) -> int {
    let since = match last_display {
        Some(t) => sat_sub(now as int, t as int),
        None => 0,
    };
    (MIN_DISPLAY_UPDATE_NS - (if since < MIN_DISPLAY_UPDATE_NS {
        since
    } else {
        MIN_DISPLAY_UPDATE_NS as int
    })) / 1_000_000
}

/// A redraw is due: the status line is shown at all and was never drawn, or was drawn
/// at least 250 ms ago.
pub open spec fn display_due_spec(show: bool, last_display: Option<u128>, now: u128) -> bool {
    show && match last_display {
        None => true,
        Some(t) => t + MIN_DISPLAY_UPDATE_NS > u128::MAX || t + MIN_DISPLAY_UPDATE_NS <= now,
    }
}

/// What the time estimator is asked, when there was a previous run: the paths done
/// (known minus remaining) and the expected total (the larger of the previous run's
/// count and the count known now), provided that total is not zero.
pub open spec fn eta_request_spec(
    prev_paths: Option<u64>,
    known: Option<u64>,
    remainder: Option<u64>,
) -> Option<(u64, u64)> {
    match prev_paths {
        None => None,
        Some(p) => {
            let k = match known {
                Some(k) => k,
                None => 0,
            };
            let r = match remainder {
                Some(r) => r,
                None => 0,
            };
            let done = sat_sub(k as int, r as int) as u64;
            let paths = if p >= k {
                p
            } else {
                k
            };
            if paths > 0 {
                Some((done, paths))
            } else {
                None
            }
        },
    }
}

/// The time estimate's text when there is no estimate.
pub open spec fn eta_placeholder_spec(known: Option<u64>) -> Seq<char> {
    match known {
        Some(x) => "("@ + decimal(x as nat) + " files) ??:??"@,
        None => "??:??"@,
    }
}

/// `s` right-aligned in a field of `w` characters (`format!("{s:>w$}")`).
pub open spec fn pad_left(s: Seq<char>, w: int) -> Seq<char> {
    if s.len() < w {
        Seq::new((w - s.len()) as nat, |i: int| ' ') + s
    } else {
        s
    }
}

/// The last `n` characters of `s`.
pub open spec fn last_chars(s: Seq<char>, n: int) -> Seq<char> {
    s.subrange(s.len() - n, s.len() as int)
}

/// The coloured part of the status line and the rest, given `left` and `path`.
pub open spec fn line_with_path(
    termw: int,
    etas: Seq<char>,
    is_del: bool,
    left: Seq<char>,
    path: Seq<char>,
) -> Option<Seq<char>> {
    let rhsw = termw - display_width(left) - display_width(path) - 1;
    if rhsw < 0 {
        None
    } else {
        Some(
            "\r"@ + (if is_del {
                TERM_RED@
            } else {
                TERM_GREEN@
            }) + left + path + TERM_RESET@ + " "@ + pad_left(etas, rhsw) + CLEAR_TO_EOL@,
        )
    }
}

/// The status line for a terminal `termw` columns wide, or `None` where no line can be
/// formed (an arithmetic overflow, a shortened path with too few characters, or a field
/// width below zero). With no path, the estimate is right-aligned. With a path that fits,
/// it is shown whole; if not, `...` and as many of its last characters as leave room; if
/// not even that fits, the estimate is shown in the path's place.
pub open spec fn status_line_spec(termw: int, etas: Seq<char>, shown: Option<(Seq<char>, bool)>) -> Option<
    Seq<char>,
> {
    let etasw = display_width(etas) as int;
    match shown {
        None => Some("\r"@ + pad_left(etas, termw) + CLEAR_TO_EOL@),
        Some((p, is_del)) => {
            let pw = display_width(p) as int;
            let sepw = display_width(OUTPUT_SEP@) as int;
            let ptlw = display_width(PATH_TOO_LONG@) as int;
            if pw + sepw + etasw > usize::MAX {
                None
            } else if pw + sepw + etasw < termw {
                line_with_path(termw, etas, is_del, ""@, p)
            } else if ptlw + 1 + sepw + etasw > usize::MAX {
                None
            } else if ptlw + 1 + sepw + etasw < termw {
                let n = termw - etasw - sepw - 1 - ptlw + 1;
                if p.len() < n {
                    None
                } else {
                    line_with_path(termw, etas, is_del, PATH_TOO_LONG@, last_chars(p, n))
                }
            } else {
                line_with_path(termw, etas, is_del, ""@, etas)
            }
        },
    }
}

impl ShownPath {
    /// The path and its deletion flag, as plain values.
    pub open spec fn parts(self) -> (Seq<char>, bool) {
        (self.path@, self.is_del)
    }
}

/// The shown path, as plain values.
pub open spec fn shown_parts(s: Option<ShownPath>) -> Option<(Seq<char>, bool)> {
    match s {
        Some(sp) => Some(sp.parts()),
        None => None,
    }
}

/// The shown path after a redraw at `now`: an old one goes once it has been shown over
/// 250 ms and either over 750 ms or another path is waiting; then a waiting path, if any,
/// is shown from `now`. The result also gives the waiting path afterwards.
pub open spec fn refreshed_shown(
    shown: Option<(u128, Seq<char>, bool)>,
    seen: Seq<char>,
    seen_is_del: bool,
    now: u128,
) -> (Option<(u128, Seq<char>, bool)>, Seq<char>) {
    let kept = match shown {
        Some((t, p, d)) => {
            let el = sat_sub(now as int, t as int);
            if el > MIN_PATH_DISPLAY_NS && (el > MAX_PATH_DISPLAY_NS || seen.len() > 0) {
                None
            } else {
                Some((t, p, d))
            }
        },
        None => None,
    };
    if kept is None && seen.len() > 0 {
        (Some((now, seen, seen_is_del)), Seq::empty())
    } else {
        (kept, seen)
    }
}

/// The shown path with its time, as plain values.
pub open spec fn shown_full(s: Option<ShownPath>) -> Option<(u128, Seq<char>, bool)> {
    match s {
        Some(sp) => Some((sp.since, sp.path@, sp.is_del)),
        None => None,
    }
}

// ---------------------------------------------------------------------------
// Laws
// ---------------------------------------------------------------------------

/// The display is not redrawn more often than every 250 ms: after a redraw at `t`, none
/// is due before `t + 250 ms` (for `t + 250 ms` within the clock's range).
pub proof fn law_redraw_spacing(show: bool, t: u128, now: u128)
    requires
        now < t + MIN_DISPLAY_UPDATE_NS,
        t + MIN_DISPLAY_UPDATE_NS <= u128::MAX,
    ensures
        !display_due_spec(show, Some(t), now),
{
}

/// Once due, a redraw stays due until it is made.
pub proof fn law_redraw_stays_due(show: bool, t: u128, now: u128, later: u128)
    requires
        display_due_spec(show, Some(t), now),
        now <= later,
    ensures
        display_due_spec(show, Some(t), later),
{
}

/// A shown path stays at least 250 ms, whatever else rsync reports meanwhile.
pub proof fn law_path_shown_at_least_min(
    t: u128,
    p: Seq<char>,
    d: bool,
    seen: Seq<char>,
    seen_is_del: bool,
    now: u128,
)
    requires
        sat_sub(now as int, t as int) <= MIN_PATH_DISPLAY_NS,
    ensures
        refreshed_shown(Some((t, p, d)), seen, seen_is_del, now) == (Some((t, p, d)), seen),
{
}

/// After 250 ms a waiting path replaces the shown one, and is no longer waiting.
pub proof fn law_waiting_path_replaces(
    t: u128,
    p: Seq<char>,
    d: bool,
    seen: Seq<char>,
    seen_is_del: bool,
    now: u128,
)
    requires
        sat_sub(now as int, t as int) > MIN_PATH_DISPLAY_NS,
        seen.len() > 0,
    ensures
        refreshed_shown(Some((t, p, d)), seen, seen_is_del, now) == (
            Some((now, seen, seen_is_del)),
            Seq::<char>::empty(),
        ),
{
}

/// With nothing waiting, a path is shown at most 750 ms.
pub proof fn law_path_shown_at_most_max(t: u128, p: Seq<char>, d: bool, seen_is_del: bool, now: u128)
    requires
        sat_sub(now as int, t as int) > MAX_PATH_DISPLAY_NS,
    ensures
        refreshed_shown(Some((t, p, d)), Seq::empty(), seen_is_del, now) == (
            None::<(u128, Seq<char>, bool)>,
            Seq::<char>::empty(),
        ),
{
}

/// Time remaining only appears from the second run on: with no previous run the
/// estimator is never asked, so the placeholder is shown.
pub proof fn law_no_estimate_without_previous_run(known: Option<u64>, remainder: Option<u64>)
    ensures
        eta_request_spec(None, known, remainder) is None,
{
}

/// A redraw is due within 250 ms: the poll timeout never exceeds it, and is zero once a
/// redraw is due (for a last redraw time at least 250 ms below the clock's range).
pub proof fn law_poll_timeout_bounded(last: Option<u128>, now: u128)
    requires
        last matches Some(t) ==> t + MIN_DISPLAY_UPDATE_NS <= u128::MAX,
    ensures
        0 <= poll_timeout_spec(last, now) <= 250,
        display_due_spec(true, last, now) && last is Some ==> poll_timeout_spec(last, now) == 0,
{
}

/// The first space of a line whose first four characters are not spaces and whose
/// fifth is one is at index 4.
proof fn lemma_first_space_at_four(line: Seq<char>)
    requires
        line.len() >= 5,
        forall|i: int| 0 <= i < 4 ==> line[i] != ' ',
        line[4] == ' ',
    ensures
        find(line, " "@) == Some(4int),
{
    reveal_strlit(" ");
    crate::text::lemma_find_from(line, " "@, 0);
    assert(crate::text::occurs_at(line, " "@, 4)) by {
        assert(line.subrange(4, 5) =~= " "@);
    }
    assert forall|j: int| 0 <= j < 4 implies !crate::text::occurs_at(line, " "@, j) by {
        if crate::text::occurs_at(line, " "@, j) {
            assert(line.subrange(j, j + 1)[0] == line[j]);
        }
    }
}

/// A `del.` line names the deleted path by everything after its first space, spaces
/// included: after `del. p` the waiting path is `p`, marked deleted.
pub proof fn law_del_line_keeps_whole_path(p: Seq<char>, path: Seq<char>, is_del: bool)
    ensures
        after_name_line("del. "@ + p, path, is_del) == (p, true),
        !name_line_unsliceable("del. "@ + p),
{
    reveal_strlit("del. ");
    reveal_strlit("del.");
    reveal_strlit("send");
    let line = "del. "@ + p;
    lemma_first_space_at_four(line);
    assert(line.subrange(0, 4) =~= "del."@);
    assert(line[0] != "send"@[0]);
    assert(!starts_with(line, "send"@));
    assert(line.subrange(5, line.len() as int) =~= p);
}

/// A `send` line `send p n` (the size `n` holding no space) names the sent path by the
/// text between its first and last spaces, spaces inside `p` included: after it the
/// waiting path is `p`, marked sent.
pub proof fn law_send_line_keeps_whole_path(
    p: Seq<char>,
    n: Seq<char>,
    path: Seq<char>,
    is_del: bool,
)
    requires
        forall|i: int| 0 <= i < n.len() ==> n[i] != ' ',
    ensures
        after_name_line("send "@ + p + " "@ + n, path, is_del) == (p, false),
        !name_line_unsliceable("send "@ + p + " "@ + n),
{
    reveal_strlit("send ");
    reveal_strlit("send");
    reveal_strlit(" ");
    let line = "send "@ + p + " "@ + n;
    lemma_first_space_at_four(line);
    assert(line.subrange(0, 4) =~= "send"@);
    let r: int = 5 + p.len() as int;
    crate::text::lemma_rfind_char(line, ' ');
    assert(line[r] == ' ');
    assert forall|j: int| r < j < line.len() implies line[j] != ' ' by {
        assert(line[j] == n[j - r - 1]);
    }
    assert(rfind_char(line, ' ') == Some(r));
    assert(line.subrange(5, r) =~= p);
}

/// Whenever the status line shows a path, whole or shortened (or the estimate in its
/// place), it is drawn in red exactly when that path was deleted and in green when it
/// was sent; the two colours differ.
pub proof fn law_status_line_colour(termw: int, etas: Seq<char>, p: Seq<char>, is_del: bool)
    ensures
        status_line_spec(termw, etas, Some((p, is_del))) matches Some(l) ==> l.len() >= 6 && l.subrange(1, 6) == (
            if is_del {
                TERM_RED@
            } else {
                TERM_GREEN@
            }),
        TERM_RED@ != TERM_GREEN@,
{
    reveal_strlit("\r");
    reveal_strlit("\x1b[31m");
    reveal_strlit("\x1b[32m");
    assert(TERM_RED@[3] != TERM_GREEN@[3]);
    if let Some(l) = status_line_spec(termw, etas, Some((p, is_del))) {
        let clr = if is_del {
            TERM_RED@
        } else {
            TERM_GREEN@
        };
        assert(clr.len() == 5);
        assert(l.subrange(1, 6) =~= clr) by {
            assert(l.len() >= 6);
            assert forall|i: int| 0 <= i < 5 implies l[1 + i] == clr[i] by {}
        }
    }
}

// ---------------------------------------------------------------------------
// Implementation
// ---------------------------------------------------------------------------

/// Whether `note_name_line` may be given `line` (a path can be taken out of it).
pub fn name_line_is_sliceable(line: &String) -> (b: bool)
    ensures
        b == !name_line_unsliceable(line@),
{
    let v = to_chars(line.as_str());
    proof {
        crate::text::lemma_find_from(v@, " "@, 0);
        crate::text::lemma_rfind_char(v@, ' ');
    }
    match find_exec(&v, " ", 0) {
        Some(l) => {
            if starts_with_exec(&v, "send") {
                match rfind_char_exec(&v, ' ') {
                    Some(r) => r > l,
                    None => true,
                }
            } else {
                true
            }
        },
        None => true,
    }
}

impl Progress {
    /// Nothing seen or shown yet.
    pub fn new() -> (p: Progress)
        ensures
            p.seen_path@ == Seq::<char>::empty(),
            !p.seen_is_del,
            p.paths_known is None,
            p.paths_remainder is None,
            p.shown is None,
            p.last_display is None,
    {
        Progress {
            seen_path: String::new(),
            seen_is_del: false,
            paths_known: None,
            paths_remainder: None,
            shown: None,
            last_display: None,
        }
    }

    /// Takes note of a line naming a file sent or deleted.
    pub fn note_name_line(&mut self, line: &String)
        requires
            !name_line_unsliceable(line@),
        ensures
            (final(self).seen_path@, final(self).seen_is_del) == after_name_line(
                line@,
                old(self).seen_path@,
                old(self).seen_is_del,
            ),
            final(self).paths_known == old(self).paths_known,
            final(self).paths_remainder == old(self).paths_remainder,
            shown_full(final(self).shown) == shown_full(old(self).shown),
            final(self).last_display == old(self).last_display,
    {
        let v = to_chars(line.as_str());
        proof {
            crate::text::lemma_find_from(v@, " "@, 0);
        }
        if let Some(l) = find_exec(&v, " ", 0) {
            let len = v.len();
            assert(l + 1 <= len) by {
                reveal_strlit(" ");
            }
            if starts_with_exec(&v, "send") && rfind_char_exec(&v, ' ').is_some() {
                let r = rfind_char_exec(&v, ' ').unwrap();
                proof {
                    crate::text::lemma_rfind_char(v@, ' ');
                    assert(find(v@, " "@) == Some(l as int));
                    assert(rfind_char(v@, ' ') == Some(r as int));
                    assert(starts_with(v@, "send"@));
                    assert(!name_line_unsliceable(v@));
                }
                self.seen_path = string_of(&v, l + 1, r);
                self.seen_is_del = false;
            } else if starts_with_exec(&v, "del.") {
                self.seen_path = string_of(&v, l + 1, len);
                self.seen_is_del = true;
            } else {
                self.seen_path = String::new();
            }
        }
    }

    /// Takes note of a progress line: its `ir-chk=`/`to-chk=` counts, when it has them,
    /// become the paths remaining and the paths known.
    pub fn note_progress_line(&mut self, line: &String)
        ensures
            match progress_counts(line@) {
                Some((rem, tot)) => final(self).paths_remainder == Some(rem)
                    && final(self).paths_known == Some(tot),
                None => final(self).paths_remainder == old(self).paths_remainder
                    && final(self).paths_known == old(self).paths_known,
            },
            final(self).seen_path@ == old(self).seen_path@,
            final(self).seen_is_del == old(self).seen_is_del,
            shown_full(final(self).shown) == shown_full(old(self).shown),
            final(self).last_display == old(self).last_display,
    {
        if let Some((rem, tot)) = progress_counts_exec(line) {
            self.paths_remainder = Some(rem);
            self.paths_known = Some(tot);
        }
    }

    /// How long `poll` may wait, in milliseconds, before the next redraw is due.
    pub fn poll_timeout_ms(&self, now: u128) -> (ms: i32)
        ensures
            ms as int == poll_timeout_spec(self.last_display, now),
    {
        let since: u128 = match self.last_display {
            Some(t) => if now > t {
                now - t
            } else {
                0
            },
            None => 0,
        };
        let left: u128 = if since < MIN_DISPLAY_UPDATE_NS {
            MIN_DISPLAY_UPDATE_NS - since
        } else {
            0
        };
        (left / 1_000_000) as i32
    }

    /// Whether the status line should be redrawn now.
    pub fn display_due(&self, show: bool, now: u128) -> (b: bool)
        ensures
            b == display_due_spec(show, self.last_display, now),
    {
        if !show {
            return false;
        }
        match self.last_display {
            None => true,
            Some(t) => match t.checked_add(MIN_DISPLAY_UPDATE_NS) {
                Some(due) => due <= now,
                None => true,
            },
        }
    }

    /// What to ask the time estimator, given the previous run's path count.
    pub fn eta_request(&self, prev_paths: Option<u64>) -> (r: Option<(u64, u64)>)
        ensures
            r == eta_request_spec(prev_paths, self.paths_known, self.paths_remainder),
    {
        match prev_paths {
            None => None,
            Some(p) => {
                let k = match self.paths_known {
                    Some(k) => k,
                    None => 0,
                };
                let r = match self.paths_remainder {
                    Some(r) => r,
                    None => 0,
                };
                let done = k.saturating_sub(r);
                let paths = if p >= k {
                    p
                } else {
                    k
                };
                if paths > 0 {
                    Some((done, paths))
                } else {
                    None
                }
            },
        }
    }

    /// The estimate's text when there is none: the file count if known, and `??:??`.
    pub fn eta_placeholder(&self) -> (s: String)
        ensures
            s@ == eta_placeholder_spec(self.paths_known),
    {
        let mut s = String::new();
        match self.paths_known {
            Some(x) => {
                push_str(&mut s, "(");
                push_decimal(&mut s, x);
                push_str(&mut s, " files) ??:??");
            },
            None => push_str(&mut s, "??:??"),
        }
        s
    }

    /// Updates which path is shown, at `now`.
    pub fn refresh_shown_path(&mut self, now: u128)
        ensures
            (shown_full(final(self).shown), final(self).seen_path@) == refreshed_shown(
                shown_full(old(self).shown),
                old(self).seen_path@,
                old(self).seen_is_del,
                now,
            ),
            final(self).seen_is_del == old(self).seen_is_del,
            final(self).paths_known == old(self).paths_known,
            final(self).paths_remainder == old(self).paths_remainder,
            final(self).last_display == old(self).last_display,
    {
        let seen_empty = self.seen_path.as_str().is_empty();
        let drop = match &self.shown {
            Some(sp) => {
                let el: u128 = if now > sp.since {
                    now - sp.since
                } else {
                    0
                };
                el > MIN_PATH_DISPLAY_NS && (el > MAX_PATH_DISPLAY_NS || !seen_empty)
            },
            None => false,
        };
        if drop {
            self.shown = None;
        }
        if self.shown.is_none() && !seen_empty {
            let path = self.seen_path.clone();
            self.shown = Some(ShownPath { since: now, path, is_del: self.seen_is_del });
            self.seen_path = String::new();
        }
    }

    /// Records that the status line was drawn at `now`.
    pub fn mark_displayed(&mut self, now: u128)
        ensures
            final(self).last_display == Some(now),
            final(self).seen_path@ == old(self).seen_path@,
            final(self).seen_is_del == old(self).seen_is_del,
            final(self).paths_known == old(self).paths_known,
            final(self).paths_remainder == old(self).paths_remainder,
            shown_full(final(self).shown) == shown_full(old(self).shown),
    {
        self.last_display = Some(now);
    }

    /// The status line for a terminal `termw` columns wide showing the estimate `etas`,
    /// or `None` where no line can be formed (see `status_line_spec`).
    pub fn status_line(&self, termw: usize, etas: &String) -> (r: Option<String>)
        ensures
            opt_string(r) == status_line_spec(termw as int, etas@, shown_parts(self.shown)),
    {
        let etasw = str_width(etas.as_str());
        match &self.shown {
            None => {
                let mut out = String::new();
                push_str(&mut out, "\r");
                push_padded(&mut out, etas, termw);
                push_str(&mut out, CLEAR_TO_EOL);
                Some(out)
            },
            Some(sp) => {
                let pw = str_width(sp.path.as_str());
                let sepw = str_width(OUTPUT_SEP);
                let ptlw = str_width(PATH_TOO_LONG);
                proof {
                    plain_ascii_literals();
                }
                if pw > usize::MAX - sepw || pw + sepw > usize::MAX - etasw {
                    None
                } else if pw + sepw + etasw < termw {
                    line_with_path_exec(termw, etas, sp.is_del, "", sp.path.as_str())
                } else if etasw > usize::MAX - (ptlw + 1 + sepw) {
                    None
                } else if ptlw + 1 + sepw + etasw < termw {
                    let n = termw - etasw - sepw - 1 - ptlw + 1;
                    let v = to_chars(sp.path.as_str());
                    if v.len() < n {
                        None
                    } else {
                        let tail = string_of(&v, v.len() - n, v.len());
                        line_with_path_exec(termw, etas, sp.is_del, PATH_TOO_LONG, tail.as_str())
                    }
                } else {
                    line_with_path_exec(termw, etas, sp.is_del, "", etas.as_str())
                }
            },
        }
    }
}

/// The characters of an optional string.
pub open spec fn opt_string(o: Option<String>) -> Option<Seq<char>> {
    match o {
        Some(s) => Some(s@),
        None => None,
    }
}

/// The literals measured on the status line are plain ASCII of the expected length.
proof fn plain_ascii_literals()
    ensures
        crate::width::is_plain_ascii(OUTPUT_SEP@),
        crate::width::is_plain_ascii(PATH_TOO_LONG@),
        crate::width::is_plain_ascii(""@),
        OUTPUT_SEP@.len() == 1,
        PATH_TOO_LONG@.len() == 3,
        ""@.len() == 0,
{
    reveal_strlit(" ");
    reveal_strlit("...");
    reveal_strlit("");
}

/// Appends `s` right-aligned in a field of `w` characters.
fn push_padded(out: &mut String, s: &String, w: usize)
    ensures
        final(out)@ == old(out)@ + pad_left(s@, w as int),
{
    let v = to_chars(s.as_str());
    if v.len() < w {
        let pad = w - v.len();
        let mut i: usize = 0;
        while i < pad
            invariant
                i <= pad,
                out@ =~= old(out)@ + Seq::new(i as nat, |j: int| ' '),
            decreases pad - i,
        {
            push_char(out, ' ');
            i = i + 1;
        }
    }
    push_chars(out, &v, 0, v.len());
    assert(v@.subrange(0, v@.len() as int) =~= v@);
    assert(out@ =~= old(out)@ + pad_left(s@, w as int));
}

/// The status line with `left` and `path` in colour before the estimate.
fn line_with_path_exec(termw: usize, etas: &String, is_del: bool, left: &str, path: &str) -> (r:
    Option<String>)
    ensures
        opt_string(r) == line_with_path(termw as int, etas@, is_del, left@, path@),
{
    let lw = str_width(left);
    let pw = str_width(path);
    if lw >= termw || pw >= termw - lw {
        return None;
    }
    let rhsw = termw - lw - pw - 1;
    let mut out = String::new();
    push_str(&mut out, "\r");
    if is_del {
        push_str(&mut out, TERM_RED);
    } else {
        push_str(&mut out, TERM_GREEN);
    }
    push_str(&mut out, left);
    push_str(&mut out, path);
    push_str(&mut out, TERM_RESET);
    push_str(&mut out, " ");
    push_padded(&mut out, etas, rhsw);
    push_str(&mut out, CLEAR_TO_EOL);
    assert(out@ =~= "\r"@ + (if is_del {
        TERM_RED@
    } else {
        TERM_GREEN@
    }) + left@ + path@ + TERM_RESET@ + " "@ + pad_left(etas@, rhsw as int) + CLEAR_TO_EOL@);
    Some(out)
}

} // verus!
