//! What one run of rsyncp keeps and decides outside the progress loop: the state file
//! ("cookie file") written at the end of a run and read at the start of the next, the
//! time-estimate window, the rsync command line, and where state is stored.
use vstd::prelude::*;
use vstd::utf8::{decode_utf8, valid_utf8};
use crate::config::Config;
use crate::output::{opt_chars, rsync_lines, rsync_lines_spec, utf8_string};
use crate::text::{
    decimal, equals_exec, parse_u64_exec, parse_u64_spec, push_decimal, push_str, to_chars,
};

verus! {

/// The first line of a cookie file.
pub const COOKIE_MAGIC: &'static str = "RSYNCP01";

/// The directory under the state directory that holds cookie files.
pub const RSYNCP_DIR_NAME: &'static str = "rsyncp";

/// The bounds, in seconds, of the window over which the current rate is measured.
pub const MIN_ETA_WINDOW: u64 = 8;

pub const MAX_ETA_WINDOW: u64 = 30;

/// The arguments rsyncp always passes to rsync, before the user's.
pub const RSYNC_INFO_ARG: &'static str = "--info=name,progress2";

pub const RSYNC_OUTBUF_ARG: &'static str = "--outbuf=line";

pub const RSYNC_OUT_FORMAT_ARG: &'static str = "--out-format=%o %n %l";

/// One run of rsyncp.
pub struct Runner {
    pub cfg: Config,
    /// The terminal's width in columns.
    pub termw: usize,
    /// How many paths the previous run encountered, if there was one.
    pub prev_paths: Option<u64>,
}

// ---------------------------------------------------------------------------
// Specification
// ---------------------------------------------------------------------------

/// A line without its final `\r`, if it has one.
pub open spec fn strip_cr(l: Seq<char>) -> Seq<char> {
    if l.len() > 0 && l.last() == '\r' {
        l.drop_last()
    } else {
        l
    }
}

/// The lines of `s` (`str::lines`), where `cur` is the part of a line read so far: lines
/// end at `\n`, a `\r` right before that `\n` is dropped, and a final line ending adds
/// no empty line.
pub open spec fn lines_from(s: Seq<char>, cur: Seq<char>) -> Seq<Seq<char>>
    decreases s.len(),
{
    if s.len() == 0 {
        if cur.len() == 0 {
            Seq::empty()
        } else {
            seq![cur]
        }
    } else if s[0] == '\n' {
        seq![strip_cr(cur)] + lines_from(s.drop_first(), Seq::empty())
    } else {
        lines_from(s.drop_first(), cur.push(s[0]))
    }
}

/// The lines of `s`.
pub open spec fn lines_spec(s: Seq<char>) -> Seq<Seq<char>> {
    lines_from(s, Seq::empty())
}

/// A cookie file: exactly three lines, the magic line, the previous run's path count
/// and its elapsed seconds.
pub open spec fn parse_cookie_spec(s: Seq<char>) -> Option<(u64, u64)> {
    let ls = lines_spec(s);
    if ls.len() == 3 && ls[0] == COOKIE_MAGIC@ && parse_u64_spec(ls[1]) is Some && parse_u64_spec(
        ls[2],
    ) is Some {
        Some((parse_u64_spec(ls[1])->Some_0, parse_u64_spec(ls[2])->Some_0))
    } else {
        None
    }
}

/// What a cookie file's bytes read as: nothing unless they are UTF-8 text, and otherwise
/// what that text reads as.
pub open spec fn parse_cookie_bytes_spec(bytes: Seq<u8>) -> Option<(u64, u64)> {
    if valid_utf8(bytes) {
        parse_cookie_spec(decode_utf8(bytes))
    } else {
        None
    }
}

/// What a run writes to its cookie file.
pub open spec fn cookie_contents_spec(paths: u64, elapsed: u64) -> Seq<char> {
    COOKIE_MAGIC@ + "\n"@ + decimal(paths as nat) + "\n"@ + decimal(elapsed as nat)
}

/// The window over which the current rate is measured: a hundredth of the previous
/// run's duration, kept between 8 and 30 seconds.
pub open spec fn eta_window_spec(prev_elapsed: u64) -> u64 {
    let w = if MAX_ETA_WINDOW <= prev_elapsed / 100 {
        MAX_ETA_WINDOW
    } else {
        (prev_elapsed / 100) as u64
    };
    if w >= MIN_ETA_WINDOW {
        w
    } else {
        MIN_ETA_WINDOW
    }
}

/// The directory, as path components, that holds cookie files:
/// `${XDG_STATE_HOME:-$HOME/.local/state}/rsyncp`, where an empty `XDG_STATE_HOME`
/// counts as unset.
pub open spec fn state_dir_spec(xdg_state_home: Option<Seq<char>>, home: Option<Seq<char>>) -> Option<
    Seq<Seq<char>>,
> {
    match xdg_state_home {
        Some(x) if x.len() > 0 => Some(seq![x, RSYNCP_DIR_NAME@]),
        _ => match home {
            Some(h) => Some(seq![h, ".local"@, "state"@, RSYNCP_DIR_NAME@]),
            None => None,
        },
    }
}

/// The arguments rsync is run with: rsyncp's own, then the user's.
pub open spec fn rsync_command_spec(user_args: Seq<Seq<char>>) -> Seq<Seq<char>> {
    seq![RSYNC_INFO_ARG@, RSYNC_OUTBUF_ARG@, RSYNC_OUT_FORMAT_ARG@] + user_args
}

// ---------------------------------------------------------------------------
// Proofs
// ---------------------------------------------------------------------------

/// Text without a line feed only extends the current line.
proof fn lemma_lines_no_newline(a: Seq<char>, b: Seq<char>, cur: Seq<char>)
    requires
        !a.contains('\n'),
    ensures
        lines_from(a + b, cur) == lines_from(b, cur + a),
    decreases a.len(),
{
    if a.len() == 0 {
        assert(a + b =~= b);
        assert(cur + a =~= cur);
    } else {
        assert((a + b)[0] == a[0]);
        assert((a + b).drop_first() =~= a.drop_first() + b);
        assert(!a.drop_first().contains('\n')) by {
            if a.drop_first().contains('\n') {
                let i = choose|i: int| 0 <= i < a.drop_first().len() && a.drop_first()[i] == '\n';
                assert(a[i + 1] == '\n');
            }
        }
        assert(a[0] != '\n') by {
            if a[0] == '\n' {
                assert(a.contains('\n'));
            }
        }
        lemma_lines_no_newline(a.drop_first(), b, cur.push(a[0]));
        assert(cur.push(a[0]) + a.drop_first() =~= cur + a);
    }
}

/// A line feed ends the current line.
proof fn lemma_lines_newline(b: Seq<char>, cur: Seq<char>)
    ensures
        lines_from("\n"@ + b, cur) == seq![strip_cr(cur)] + lines_from(b, Seq::empty()),
{
    reveal_strlit("\n");
    assert(("\n"@ + b)[0] == '\n');
    assert(("\n"@ + b).drop_first() =~= b);
}

/// Reading back what a run wrote to its cookie file gives the same path count and
/// elapsed seconds.
pub proof fn law_cookie_round_trip(paths: u64, elapsed: u64)
    ensures
        parse_cookie_spec(cookie_contents_spec(paths, elapsed)) == Some((paths, elapsed)),
{
    let m = COOKIE_MAGIC@;
    let dp = decimal(paths as nat);
    let de = decimal(elapsed as nat);
    let nl = "\n"@;
    reveal_strlit("RSYNCP01");
    reveal_strlit("\n");
    crate::text::lemma_decimal(paths as nat);
    crate::text::lemma_decimal(elapsed as nat);
    crate::text::lemma_parse_decimal(paths);
    crate::text::lemma_parse_decimal(elapsed);
    let e = Seq::<char>::empty();
    assert(!m.contains('\n')) by {
        if m.contains('\n') {
            let i = choose|i: int| 0 <= i < m.len() && m[i] == '\n';
            assert(m[i] != '\n');
        }
    }
    let rest1 = nl + dp + nl + de;
    let rest2 = dp + nl + de;
    let rest3 = nl + de;
    assert(cookie_contents_spec(paths, elapsed) =~= m + rest1);
    lemma_lines_no_newline(m, rest1, e);
    assert(e + m =~= m);
    assert(lines_from(m + rest1, e) == lines_from(rest1, m));
    assert(rest1 =~= nl + rest2);
    lemma_lines_newline(rest2, m);
    assert(strip_cr(m) == m);
    assert(lines_from(rest1, m) == seq![m] + lines_from(rest2, e));
    assert(rest2 =~= dp + rest3);
    lemma_lines_no_newline(dp, rest3, e);
    assert(e + dp =~= dp);
    assert(lines_from(rest2, e) == lines_from(rest3, dp));
    lemma_lines_newline(de, dp);
    assert(strip_cr(dp) == dp) by {
        assert(dp.last() != '\r') by {
            assert(dp.contains(dp.last()));
        }
    }
    assert(lines_from(rest3, dp) == seq![dp] + lines_from(de, e));
    lemma_lines_no_newline(de, e, e);
    assert(de + e =~= de);
    assert(e + de =~= de);
    assert(lines_from(e, de) == seq![de]);
    assert(lines_from(de, e) == seq![de]);
    assert(lines_spec(cookie_contents_spec(paths, elapsed)) == lines_from(m + rest1, e));
    let ls = lines_spec(cookie_contents_spec(paths, elapsed));
    assert(ls =~= seq![m, dp, de]);
}

// ---------------------------------------------------------------------------
// Implementation
// ---------------------------------------------------------------------------

/// A vector of characters seen deeply is its sequence of characters.
proof fn lemma_chars_deep_view(v: Vec<char>)
    ensures
        v.deep_view() == v@,
{
    assert(v.deep_view() =~= v@);
}

/// The lines of `v`.
fn lines_exec(v: &Vec<char>) -> (r: Vec<Vec<char>>)
    ensures
        r.deep_view() == lines_spec(v@),
{
    let mut out: Vec<Vec<char>> = Vec::new();
    let mut cur: Vec<char> = Vec::new();
    let mut i: usize = 0;
    assert(v@.subrange(0, v@.len() as int) =~= v@);
    while i < v.len()
        invariant
            i <= v@.len(),
            lines_spec(v@) == out.deep_view() + lines_from(
                v@.subrange(i as int, v@.len() as int),
                cur@,
            ),
        decreases v@.len() - i,
    {
        let ghost s = v@.subrange(i as int, v@.len() as int);
        assert(s[0] == v@[i as int]);
        assert(s.drop_first() =~= v@.subrange(i + 1, v@.len() as int));
        if v[i] == '\n' {
            let ghost before = out.deep_view();
            proof {
                lemma_chars_deep_view(cur);
            }
            let mut line = cur;
            if line.len() > 0 && line[line.len() - 1] == '\r' {
                line.pop();
                assert(line@ =~= strip_cr(cur@));
            }
            assert(line@ == strip_cr(cur@));
            proof {
                lemma_chars_deep_view(line);
            }
            out.push(line);
            assert(out.deep_view() =~= before.push(strip_cr(cur@)));
            assert(out.deep_view() + lines_from(s.drop_first(), Seq::empty()) =~= before + (seq![
                strip_cr(cur@),
            ] + lines_from(s.drop_first(), Seq::empty())));
            cur = Vec::new();
            assert(cur@ =~= Seq::<char>::empty());
        } else {
            cur.push(v[i]);
        }
        i = i + 1;
    }
    let ghost before = out.deep_view();
    proof {
        lemma_chars_deep_view(cur);
    }
    if cur.len() > 0 {
        out.push(cur);
        assert(out.deep_view() =~= before + seq![cur@]);
    } else {
        assert(out.deep_view() =~= before + Seq::<Seq<char>>::empty());
    }
    out
}

/// The contents a run writes to its cookie file (`RSYNCP01`, the path count and the
/// elapsed seconds, one per line).
pub fn cookie_contents(paths: u64, elapsed: u64) -> (s: String)
    ensures
        s@ == cookie_contents_spec(paths, elapsed),
{
    let mut s = String::new();
    push_str(&mut s, COOKIE_MAGIC);
    push_str(&mut s, "\n");
    push_decimal(&mut s, paths);
    push_str(&mut s, "\n");
    push_decimal(&mut s, elapsed);
    assert(s@ =~= cookie_contents_spec(paths, elapsed));
    s
}

/// A run's duration in whole seconds, rounding up any millisecond part.
pub fn whole_seconds(secs: u64, subsec_millis: u32) -> (r: u64)
    requires
        secs < u64::MAX || subsec_millis == 0,
    ensures
        r == secs + (if subsec_millis != 0 {
            1int
        } else {
            0int
        }),
{
    if subsec_millis != 0 {
        secs + 1
    } else {
        secs
    }
}

/// The rate window, in seconds, for a previous run that took `prev_elapsed` seconds.
pub fn eta_window_secs(prev_elapsed: u64) -> (w: u64)
    ensures
        w == eta_window_spec(prev_elapsed),
        MIN_ETA_WINDOW <= w <= MAX_ETA_WINDOW,
{
    let x = prev_elapsed / 100;
    let w = if MAX_ETA_WINDOW <= x {
        MAX_ETA_WINDOW
    } else {
        x
    };
    if w >= MIN_ETA_WINDOW {
        w
    } else {
        MIN_ETA_WINDOW
    }
}

/// The path components of the directory holding cookie files, from the values of
/// `XDG_STATE_HOME` and `HOME` (an empty `XDG_STATE_HOME` counts as unset).
pub fn state_dir(xdg_state_home: Option<String>, home: Option<String>) -> (r: Option<Vec<String>>)
    ensures
        match (r, state_dir_spec(opt_chars(xdg_state_home), opt_chars(home))) {
            (Some(v), Some(parts)) => v.deep_view() == parts,
            (None, None) => true,
            _ => false,
        },
{
    let mut parts: Vec<String> = Vec::new();
    let xdg_set = match &xdg_state_home {
        Some(x) => !x.as_str().is_empty(),
        None => false,
    };
    match xdg_state_home {
        Some(x) if xdg_set => {
            parts.push(x);
        },
        _ => match home {
            Some(h) => {
                parts.push(h);
                let mut local = String::new();
                push_str(&mut local, ".local");
                parts.push(local);
                let mut state = String::new();
                push_str(&mut state, "state");
                parts.push(state);
            },
            None => return None,
        },
    }
    let mut dir = String::new();
    push_str(&mut dir, RSYNCP_DIR_NAME);
    parts.push(dir);
    assert(parts.deep_view() =~= state_dir_spec(
        opt_chars(xdg_state_home),
        opt_chars(home),
    )->Some_0);
    Some(parts)
}

impl Runner {
    /// A run with the given configuration, for a terminal `term_width` columns wide.
    pub fn new(cfg: Config, term_width: u16) -> (r: Runner)
        ensures
            r.cfg == cfg,
            r.termw == term_width as usize,
            r.prev_paths is None,
    {
        Runner { cfg, termw: term_width as usize, prev_paths: None }
    }

    /// Reads a cookie file: the previous run's path count and elapsed seconds.
    pub fn parse_cookie(&self, s: &str) -> (r: Option<(u64, u64)>)
        ensures
            r == parse_cookie_spec(s@),
    {
        let v = to_chars(s);
        let ls = lines_exec(&v);
        if ls.len() != 3 {
            return None;
        }
        assert(ls.deep_view()[0] == ls[0]@);
        assert(ls.deep_view()[1] == ls[1]@);
        assert(ls.deep_view()[2] == ls[2]@);
        if !equals_exec(&ls[0], COOKIE_MAGIC) {
            return None;
        }
        assert(ls[1]@.subrange(0, ls[1]@.len() as int) =~= ls[1]@);
        assert(ls[2]@.subrange(0, ls[2]@.len() as int) =~= ls[2]@);
        let paths = parse_u64_exec(&ls[1], 0, ls[1].len());
        let elapsed = parse_u64_exec(&ls[2], 0, ls[2].len());
        match (paths, elapsed) {
            (Some(p), Some(e)) => Some((p, e)),
            _ => None,
        }
    }

    /// Reads a cookie file from its bytes, which must be UTF-8 text.
    pub fn parse_cookie_bytes(&self, bytes: &[u8]) -> (r: Option<(u64, u64)>)
        ensures
            r == parse_cookie_bytes_spec(bytes@),
    {
        match utf8_string(bytes) {
            Some(s) => {
                proof {
                    vstd::utf8::encode_utf8_decode_utf8(s@);
                }
                self.parse_cookie(s.as_str())
            },
            None => None,
        }
    }

    /// Takes the bytes of the previous run's cookie file into account: if they read, the
    /// path count is remembered, and the file's contents are returned.
    pub fn note_previous_run(&mut self, bytes: &[u8]) -> (r: Option<(u64, u64)>)
        ensures
            r == parse_cookie_bytes_spec(bytes@),
            final(self).prev_paths == (match r {
                Some((p, _)) => Some(p),
                None => old(self).prev_paths,
            }),
            final(self).cfg == old(self).cfg,
            final(self).termw == old(self).termw,
    {
        let r = self.parse_cookie_bytes(bytes);
        if let Some((p, _)) = r {
            self.prev_paths = Some(p);
        }
        r
    }

    /// The latest name line and the latest progress line in a chunk of rsync output.
    pub fn parse_rsync(&self, buf: &[u8]) -> (r: (Option<String>, Option<String>))
        ensures
            opt_chars(r.0) == rsync_lines_spec(buf@).0,
            opt_chars(r.1) == rsync_lines_spec(buf@).1,
    {
        rsync_lines(buf)
    }

    /// The arguments rsync is run with.
    pub fn rsync_command_args(&self) -> (r: Vec<String>)
        ensures
            r.deep_view() == rsync_command_spec(self.cfg.rsync_args.deep_view()),
    {
        let mut r: Vec<String> = Vec::new();
        let mut a = String::new();
        push_str(&mut a, RSYNC_INFO_ARG);
        r.push(a);
        let mut b = String::new();
        push_str(&mut b, RSYNC_OUTBUF_ARG);
        r.push(b);
        let mut c = String::new();
        push_str(&mut c, RSYNC_OUT_FORMAT_ARG);
        r.push(c);
        let n = self.cfg.rsync_args.len();
        let mut i: usize = 0;
        while i < n
            invariant
                n == self.cfg.rsync_args@.len(),
                i <= n,
                r.deep_view() =~= seq![RSYNC_INFO_ARG@, RSYNC_OUTBUF_ARG@, RSYNC_OUT_FORMAT_ARG@]
                    + self.cfg.rsync_args.deep_view().subrange(0, i as int),
            decreases n - i,
        {
            let ghost before = r.deep_view();
            r.push(self.cfg.rsync_args[i].clone());
            assert(r.deep_view() =~= before.push(self.cfg.rsync_args[i as int]@));
            assert(self.cfg.rsync_args.deep_view().subrange(0, i + 1) =~= self.cfg.rsync_args.deep_view().subrange(0, i as int).push(self.cfg.rsync_args[i as int]@));
            i = i + 1;
        }
        r
    }
}

} // verus!
