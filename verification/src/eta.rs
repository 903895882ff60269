//! Time-remaining support: the window of recent progress samples over which the
//! current rate is measured, and the text a remaining time is shown as.
//!
//! The text of times of an hour or more is a one-decimal rendering of
//! `secs as f64 / 3600.0` (or `/ 86400.0`). That value is reproduced exactly here with
//! integers: the binary64 rounding of the seconds, the binary64 rounding of the
//! quotient, and the decimal rounding of the result to one place (ties to even).
use std::collections::VecDeque;
use vstd::prelude::*;
use crate::text::{decimal, decimal2, push_decimal, push_decimal2, push_str};

verus! {

// ---------------------------------------------------------------------------
// Spans of time
// ---------------------------------------------------------------------------

/// A span of time: whole seconds and the nanoseconds beyond them.
#[derive(Clone, Copy, Debug, PartialEq, Eq, Structural)]
pub struct Span {
    pub secs: u64,
    pub nanos: u32,
}

impl Span {
    /// The nanoseconds part is below one second.
    pub open spec fn wf(self) -> bool {
        self.nanos < 1_000_000_000
    }

    /// A span of `secs` seconds and `nanos` nanoseconds.
    pub fn new(secs: u64, nanos: u32) -> (s: Span)
        requires
            nanos < 1_000_000_000,
        ensures
            s.secs == secs,
            s.nanos == nanos,
            s.wf(),
    {
        Span { secs, nanos }
    }
}

/// The whole seconds of `d`, counting any fraction as one more second (saturating).
pub open spec fn rounded_up_secs(d: Span) -> u64 {
    if d.nanos > 0 {
        if d.secs == u64::MAX {
            u64::MAX
        } else {
            (d.secs + 1) as u64
        }
    } else {
        d.secs
    }
}

// ---------------------------------------------------------------------------
// Binary64 arithmetic, on integers
// ---------------------------------------------------------------------------

/// 2 to the power `e`.
pub open spec fn two_pow(e: nat) -> nat
    decreases e,
{
    if e == 0 {
        1
    } else {
        2 * two_pow((e - 1) as nat)
    }
}

/// The number of binary digits of `n` (0 for 0).
pub open spec fn bit_len(n: nat) -> nat
    decreases n,
{
    if n == 0 {
        0
    } else {
        1 + bit_len(n / 2)
    }
}

/// `n / d` rounded to the nearest integer, ties to the even one.
pub open spec fn div_round_even(n: nat, d: nat) -> nat {
    let q = n / d;
    let r = n % d;
    if 2 * r > d || (2 * r == d && q % 2 == 1) {
        q + 1
    } else {
        q
    }
}

/// The binary64 number nearest to the integer `n` (`n as f64`), which is an integer:
/// `n` kept to 53 significant bits, rounding ties to even.
pub open spec fn f64_of_nat(n: nat) -> nat {
    if bit_len(n) <= 53 {
        n
    } else {
        let s = (bit_len(n) - 53) as nat;
        div_round_even(n, two_pow(s)) * two_pow(s)
    }
}

/// For `1 <= a / d < 2^53`: the binary64 quotient `a / d` is `m / 2^t`, where `t` is this
/// exponent and `m` is `quotient_mantissa(a, d)`.
pub open spec fn quotient_shift(a: nat, d: nat) -> nat {
    (53 - bit_len(a / d)) as nat
}

/// See `quotient_shift`: `a / d` to 53 significant bits, rounding ties to even.
pub open spec fn quotient_mantissa(a: nat, d: nat) -> nat {
    div_round_even(a * two_pow(quotient_shift(a, d)), d)
}

/// Ten times `secs as f64 / unit as f64`, rounded to an integer ties to even: the digits
/// of that quotient printed with one decimal (`format!("{:.1}", ..)`).
pub open spec fn tenths(secs: nat, unit: nat) -> nat {
    let a = f64_of_nat(secs);
    div_round_even(10 * quotient_mantissa(a, unit), two_pow(quotient_shift(a, unit)))
}

/// A number of tenths shown with one decimal.
pub open spec fn tenths_text(t: nat) -> Seq<char> {
    decimal(t / 10) + "."@ + decimal(t % 10)
}

/// How a remaining time is shown: `D.D days` from a day on, `H.H hours` from an hour on,
/// else `MM:SS`; a fraction of a second counts as a whole one.
pub open spec fn eta_string_spec(d: Span) -> Seq<char> {
    let s = rounded_up_secs(d) as nat;
    if s >= 86400 {
        tenths_text(tenths(s, 86400)) + " days"@
    } else if s >= 3600 {
        tenths_text(tenths(s, 3600)) + " hours"@
    } else {
        decimal2(s / 60) + ":"@ + decimal2(s % 60)
    }
}

proof fn lemma_two_pow_pos(e: nat)
    ensures
        two_pow(e) >= 1,
    decreases e,
{
    if e > 0 {
        lemma_two_pow_pos((e - 1) as nat);
    }
}

proof fn lemma_two_pow_adds(a: nat, b: nat)
    ensures
        two_pow(a + b) == two_pow(a) * two_pow(b),
    decreases b,
{
    if b == 0 {
        assert(two_pow(0) == 1);
        assert(a + b == a);
    } else {
        lemma_two_pow_adds(a, (b - 1) as nat);
        assert(two_pow(a + b) == 2 * two_pow((a + b - 1) as nat));
        assert((a + b - 1) as nat == a + (b - 1) as nat);
        assert(two_pow(a) * two_pow(b) == two_pow(a) * (2 * two_pow((b - 1) as nat)));
        assert(two_pow(a) * (2 * two_pow((b - 1) as nat)) == 2 * (two_pow(a) * two_pow(
            (b - 1) as nat,
        ))) by (nonlinear_arith);
    }
}

proof fn lemma_two_pow_mono(a: nat, b: nat)
    requires
        a <= b,
    ensures
        two_pow(a) <= two_pow(b),
    decreases b,
{
    if a < b {
        lemma_two_pow_mono(a, (b - 1) as nat);
        lemma_two_pow_pos((b - 1) as nat);
    }
}

proof fn lemma_two_pow_values()
    ensures
        two_pow(0) == 1,
        two_pow(1) == 2,
        two_pow(128) == 0x1_0000_0000_0000_0000_0000_0000_0000_0000,
        two_pow(11) == 2048,
        two_pow(52) == 0x10_0000_0000_0000,
        two_pow(53) == 0x20_0000_0000_0000,
        two_pow(64) == 0x1_0000_0000_0000_0000,
{
    reveal_with_fuel(two_pow, 12);
    assert(two_pow(11) == 2048);
    lemma_two_pow_adds(11, 11);
    lemma_two_pow_adds(22, 11);
    lemma_two_pow_adds(33, 11);
    lemma_two_pow_adds(44, 8);
    reveal_with_fuel(two_pow, 9);
    lemma_two_pow_adds(52, 1);
    lemma_two_pow_adds(53, 11);
    lemma_two_pow_adds(64, 64);
    assert(two_pow(64) * two_pow(64) == 0x1_0000_0000_0000_0000_0000_0000_0000_0000)
        by (nonlinear_arith)
        requires
            two_pow(64) == 0x1_0000_0000_0000_0000,
    ;
}

/// `n` lies between the powers of two its bit length names.
proof fn lemma_bit_len_bounds(n: nat)
    requires
        n >= 1,
    ensures
        bit_len(n) >= 1,
        two_pow((bit_len(n) - 1) as nat) <= n < two_pow(bit_len(n)),
    decreases n,
{
    if n == 1 {
        assert(bit_len(0) == 0);
        assert(bit_len(1) == 1);
    } else {
        lemma_bit_len_bounds(n / 2);
        assert(bit_len(n) == 1 + bit_len(n / 2));
        assert(two_pow(bit_len(n)) == 2 * two_pow(bit_len(n / 2)));
        assert(two_pow((bit_len(n) - 1) as nat) == two_pow(bit_len(n / 2)));
        lemma_two_pow_pos((bit_len(n / 2) - 1) as nat);
        assert(two_pow(bit_len(n / 2)) == 2 * two_pow((bit_len(n / 2) - 1) as nat));
    }
}

/// Bit length is monotone.
proof fn lemma_bit_len_mono(a: nat, b: nat)
    requires
        a <= b,
    ensures
        bit_len(a) <= bit_len(b),
    decreases b,
{
    if a > 0 {
        lemma_bit_len_mono(a / 2, b / 2);
    }
}

/// A bound below a power of two bounds the bit length.
proof fn lemma_bit_len_below(n: nat, e: nat)
    requires
        n < two_pow(e),
    ensures
        bit_len(n) <= e,
    decreases e,
{
    if n > 0 {
        if e == 0 {
            assert(false);
        } else {
            assert(n / 2 < two_pow((e - 1) as nat));
            lemma_bit_len_below(n / 2, (e - 1) as nat);
        }
    }
}

/// Rounding a quotient gives at most one more than the floor.
proof fn lemma_div_round_even_bounds(n: nat, d: nat)
    requires
        d > 0,
    ensures
        n / d <= div_round_even(n, d) <= n / d + 1,
{
}

// ---------------------------------------------------------------------------
// Executable binary64 steps
// ---------------------------------------------------------------------------

/// The number of binary digits of `n`.
fn bit_length(n: u128) -> (l: u32)
    ensures
        l == bit_len(n as nat),
        l <= 128,
{
    let mut x = n;
    let mut l: u32 = 0;
    proof {
        lemma_two_pow_values();
        lemma_bit_len_below(n as nat, 128);
    }
    while x > 0
        invariant
            bit_len(n as nat) == l + bit_len(x as nat),
            l + bit_len(x as nat) <= 128,
        decreases x,
    {
        assert(bit_len(x as nat) == 1 + bit_len((x / 2) as nat));
        x = x / 2;
        l = l + 1;
    }
    l
}

/// 2 to the power `e`.
fn two_pow_exec(e: u32) -> (p: u128)
    requires
        e < 128,
    ensures
        p == two_pow(e as nat),
{
    let mut p: u128 = 1;
    let mut i: u32 = 0;
    while i < e
        invariant
            i <= e < 128,
            p == two_pow(i as nat),
        decreases e - i,
    {
        proof {
            lemma_two_pow_values();
            lemma_two_pow_mono((i + 1) as nat, 127);
            lemma_two_pow_adds(127, 1);
        }
        p = p * 2;
        i = i + 1;
    }
    p
}

/// `n / d` rounded to the nearest integer, ties to even.
fn div_round_even_exec(n: u128, d: u128) -> (r: u128)
    requires
        d > 0,
        n < u128::MAX,
    ensures
        r == div_round_even(n as nat, d as nat),
{
    let q = n / d;
    let r = n % d;
    if r > d - r || (r == d - r && q % 2 == 1) {
        q + 1
    } else {
        q
    }
}

/// `n as f64`, as an integer.
fn f64_of_u64(n: u64) -> (a: u128)
    requires
        n >= 1,
    ensures
        a == f64_of_nat(n as nat),
        n < 0x20_0000_0000_0000 ==> a == n,
        n >= 0x20_0000_0000_0000 ==> a >= 0x20_0000_0000_0000,
        a <= 0x1_0000_0000_0000_0000,
{
    let l = bit_length(n as u128);
    proof {
        lemma_two_pow_values();
        lemma_bit_len_bounds(n as nat);
        if n < 0x20_0000_0000_0000 {
            lemma_bit_len_below(n as nat, 53);
        } else {
            lemma_bit_len_mono(0x20_0000_0000_0000, n as nat);
            lemma_bit_len_bounds(0x20_0000_0000_0000);
            lemma_bit_len_below(0x20_0000_0000_0000, 54);
            lemma_bit_len_below(n as nat, 64);
        }
    }
    if l <= 53 {
        return n as u128;
    }
    let s = l - 53;
    let p = two_pow_exec(s);
    proof {
        lemma_two_pow_pos(s as nat);
    }
    let k = div_round_even_exec(n as u128, p);
    proof {
        let ln = bit_len(n as nat);
        lemma_two_pow_adds(s as nat, 53);
        lemma_two_pow_adds(s as nat, 52);
        assert((ln - 1) as nat == s + 52);
        assert(ln as nat == s + 53);
        lemma_div_round_even_bounds(n as nat, p as nat);
        lemma_two_pow_mono(s as nat, 11);
        lemma_two_pow_pos(s as nat);
        // 2^52 * p <= n < 2^53 * p, so 2^52 <= n / p < 2^53
        assert((n as int) / (p as int) < 0x20_0000_0000_0000) by (nonlinear_arith)
            requires
                n < 0x20_0000_0000_0000 * p,
                p >= 1,
        ;
        assert((n as int) / (p as int) >= 0x10_0000_0000_0000) by (nonlinear_arith)
            requires
                n >= 0x10_0000_0000_0000 * p,
                p >= 1,
        ;
        assert(k * p <= 0x20_0000_0000_0000 * p) by (nonlinear_arith)
            requires
                k <= 0x20_0000_0000_0000,
                p >= 1,
        ;
        assert(0x20_0000_0000_0000 * p <= 0x1_0000_0000_0000_0000) by (nonlinear_arith)
            requires
                p <= 2048,
        ;
        assert(k * p >= 0x10_0000_0000_0000 * 2) by (nonlinear_arith)
            requires
                k >= 0x10_0000_0000_0000,
                p >= 2,
        ;
        assert(p >= 2) by {
            assert(s >= 1);
            lemma_two_pow_mono(1, s as nat);
            assert(two_pow(1) == 2);
        }
    }
    k * p
}

/// `tenths(secs, unit)`, computed.
fn tenths_exec(secs: u64, unit: u64) -> (t: u64)
    requires
        unit == 3600 || unit == 86400,
        secs >= unit,
    ensures
        t == tenths(secs as nat, unit as nat),
{
    let a = f64_of_u64(secs);
    let d = unit as u128;
    proof {
        lemma_two_pow_values();
        assert(a >= d);
    }
    let q = a / d;
    let bl = bit_length(q);
    proof {
        assert(q >= 1) by (nonlinear_arith)
            requires
                a >= d,
                d > 0,
                q == a / d,
        ;
        assert(q < 0x20_0000_0000_0000) by (nonlinear_arith)
            requires
                a <= 0x1_0000_0000_0000_0000,
                d >= 3600,
                q == a / d,
        ;
        lemma_bit_len_bounds(q as nat);
        lemma_bit_len_below(q as nat, 53);
    }
    let t = 53 - bl;
    let p = two_pow_exec(t);
    proof {
        lemma_two_pow_pos(t as nat);
        lemma_two_pow_adds(t as nat, bl as nat);
        assert(t + bl == 53);
        // a < (q + 1) * d <= 2^bl * d, so a * 2^t < d * 2^53
        assert(a < (q + 1) * d) by (nonlinear_arith)
            requires
                q == a / d,
                d > 0,
        ;
        let hi = two_pow(bl as nat);
        assert(q + 1 <= hi);
        assert(a * p < d * 0x20_0000_0000_0000) by (nonlinear_arith)
            requires
                a < (q + 1) * d,
                q + 1 <= hi,
                hi * p == 0x20_0000_0000_0000,
                d > 0,
                p >= 1,
        ;
        lemma_two_pow_pos(t as nat);
        lemma_two_pow_pos(bl as nat);
    }
    let m = div_round_even_exec(a * p, d);
    proof {
        lemma_div_round_even_bounds((a * p) as nat, d as nat);
        assert(((a * p) as int) / (d as int) < 0x20_0000_0000_0000) by (nonlinear_arith)
            requires
                a * p < d * 0x20_0000_0000_0000,
                d > 0,
        ;
        assert(quotient_shift(a as nat, d as nat) == t);
        assert(quotient_mantissa(a as nat, d as nat) == m);
    }
    let r = div_round_even_exec(10 * m, p);
    proof {
        lemma_div_round_even_bounds((10 * m) as nat, p as nat);
        assert(((10 * m) as int) / (p as int) <= 10 * m) by (nonlinear_arith)
            requires
                p >= 1,
        ;
    }
    r as u64
}

/// Shows a remaining time: `MM:SS` below an hour, `H.H hours` below a day, else
/// `D.D days`; any fraction of a second counts as a whole second.
pub fn eta_string(d: Span) -> (s: String)
    ensures
        s@ == eta_string_spec(d),
{
    let secs = d.secs.saturating_add(if d.nanos > 0 {
        1
    } else {
        0
    });
    assert(secs == rounded_up_secs(d));
    let mut s = String::new();
    if secs >= 86400 {
        let t = tenths_exec(secs, 86400);
        push_decimal(&mut s, t / 10);
        push_str(&mut s, ".");
        push_decimal(&mut s, t % 10);
        push_str(&mut s, " days");
    } else if secs >= 3600 {
        let t = tenths_exec(secs, 3600);
        push_decimal(&mut s, t / 10);
        push_str(&mut s, ".");
        push_decimal(&mut s, t % 10);
        push_str(&mut s, " hours");
    } else {
        push_decimal2(&mut s, secs / 60);
        push_str(&mut s, ":");
        push_decimal2(&mut s, secs % 60);
    }
    assert(s@ =~= eta_string_spec(d));
    s
}

// ---------------------------------------------------------------------------
// The sample window
// ---------------------------------------------------------------------------

/// A progress sample: paths done so far, and when (nanoseconds since the start).
#[derive(Clone, Copy, Debug, PartialEq, Eq, Structural)]
pub struct Sample {
    pub paths_done: u64,
    pub elapsed: u128,
}

/// The recent samples over which the current rate is measured.
pub struct SampleWindow {
    /// How far back (in nanoseconds) samples are kept.
    pub window: u128,
    pub samples: VecDeque<Sample>,
}

/// `a - b`, or 0 if `b > a`.
pub open spec fn nanos_since(a: u128, b: u128) -> int {
    if a > b {
        a - b
    } else {
        0
    }
}

/// The samples left when one taken at `elapsed` arrives: from the front, drop samples
/// more than `window` older than it, but always keep at least one.
pub open spec fn pruned(s: Seq<Sample>, elapsed: u128, window: u128) -> Seq<Sample>
    decreases s.len(),
{
    if s.len() > 1 && nanos_since(elapsed, s[0].elapsed) > window {
        pruned(s.drop_first(), elapsed, window)
    } else {
        s
    }
}

/// What the window tells the rate: the paths done and the time passed between its
/// oldest and newest samples (each difference floored at zero).
pub open spec fn span_spec(s: Seq<Sample>) -> Option<(u64, u128)> {
    if s.len() == 0 {
        None
    } else {
        let front = s[0];
        let back = s.last();
        Some(
            (
                (if back.paths_done > front.paths_done {
                    back.paths_done - front.paths_done
                } else {
                    0
                }) as u64,
                nanos_since(back.elapsed, front.elapsed) as u128,
            ),
        )
    }
}

/// Pruning keeps a non-empty suffix that was not shortened past a sample within the
/// window.
proof fn lemma_pruned(s: Seq<Sample>, elapsed: u128, window: u128)
    ensures
        s.len() >= 1 ==> pruned(s, elapsed, window).len() >= 1,
        pruned(s, elapsed, window).len() <= s.len(),
        pruned(s, elapsed, window) =~= s.subrange(
            s.len() - pruned(s, elapsed, window).len(),
            s.len() as int,
        ),
        pruned(s, elapsed, window).len() >= 2 ==> nanos_since(
            elapsed,
            pruned(s, elapsed, window)[0].elapsed,
        ) <= window,
    decreases s.len(),
{
    if s.len() > 1 && nanos_since(elapsed, s[0].elapsed) > window {
        lemma_pruned(s.drop_first(), elapsed, window);
    }
}

/// Recording a sample taken at `elapsed` drops only samples more than `window` older
/// than it, from the front, and keeps at least one: every earlier sample within the
/// window (`nanos_since(elapsed, s[i].elapsed) <= window`) is still there, in order,
/// followed by the new sample; and a front sample is dropped only while another remains.
pub proof fn law_record_drops_only_stale(s: Seq<Sample>, elapsed: u128, window: u128)
    ensures
        ({
            let kept = pruned(s, elapsed, window);
            let k = s.len() - kept.len();
            &&& 0 <= k <= s.len()
            &&& kept == s.subrange(k, s.len() as int)
            &&& forall|i: int| 0 <= i < k ==> nanos_since(elapsed, #[trigger] s[i].elapsed) > window
            &&& forall|i: int|
                0 <= i < s.len() && nanos_since(elapsed, #[trigger] s[i].elapsed) <= window ==> k
                    <= i && kept[i - k] == s[i]
            &&& s.len() >= 1 ==> kept.len() >= 1
        }),
    decreases s.len(),
{
    lemma_pruned(s, elapsed, window);
    if s.len() > 1 && nanos_since(elapsed, s[0].elapsed) > window {
        let t = s.drop_first();
        law_record_drops_only_stale(t, elapsed, window);
        let kept = pruned(s, elapsed, window);
        let k = s.len() - kept.len();
        assert forall|i: int| 0 <= i < k implies nanos_since(elapsed, #[trigger] s[i].elapsed)
            > window by {
            if i > 0 {
                assert(s[i] == t[i - 1]);
            }
        }
        assert forall|i: int|
            0 <= i < s.len() && nanos_since(elapsed, #[trigger] s[i].elapsed) <= window implies k
                <= i && kept[i - k] == s[i] by {
            assert(i > 0);
            assert(s[i] == t[i - 1]);
        }
    }
}

/// A time under an hour is shown as two-digit minutes, `:` and two-digit seconds: five
/// characters that read back as the minutes and the seconds.
pub proof fn law_eta_minutes_seconds(d: Span)
    requires
        rounded_up_secs(d) < 3600,
    ensures
        ({
            let s = rounded_up_secs(d) as nat;
            let t = eta_string_spec(d);
            &&& t.len() == 5
            &&& t[2] == ':'
            &&& crate::text::all_digits(t.subrange(0, 2))
            &&& crate::text::all_digits(t.subrange(3, 5))
            &&& crate::text::digits_value(t.subrange(0, 2)) == s / 60
            &&& crate::text::digits_value(t.subrange(3, 5)) == s % 60
        }),
{
    let s = rounded_up_secs(d) as nat;
    reveal_strlit(":");
    crate::text::lemma_decimal2(s / 60);
    crate::text::lemma_decimal2(s % 60);
    let t = eta_string_spec(d);
    assert(t.subrange(0, 2) =~= decimal2(s / 60));
    assert(t.subrange(3, 5) =~= decimal2(s % 60));
}

impl SampleWindow {
    /// An empty window `window` nanoseconds long.
    pub fn new(window: u128) -> (w: SampleWindow)
        ensures
            w.window == window,
            w.samples@ == Seq::<Sample>::empty(),
    {
        SampleWindow { window, samples: VecDeque::with_capacity(128) }
    }

    /// Adds a sample taken at `elapsed`, after dropping samples that fell out of the
    /// window (keeping at least one, so that a rate can be measured).
    pub fn record(&mut self, paths_done: u64, elapsed: u128)
        ensures
            final(self).window == old(self).window,
            final(self).samples@ == pruned(old(self).samples@, elapsed, old(self).window).push(
                Sample { paths_done, elapsed },
            ),
            old(self).samples@.len() >= 1 ==> final(self).samples@.len() >= 2,
            final(self).samples@.last() == (Sample { paths_done, elapsed }),
            final(self).samples@.len() >= 3 ==> nanos_since(
                elapsed,
                final(self).samples@[0].elapsed,
            ) <= final(self).window,
    {
        proof {
            lemma_pruned(self.samples@, elapsed, self.window);
        }
        loop
            invariant
                self.window == old(self).window,
                pruned(self.samples@, elapsed, self.window) == pruned(
                    old(self).samples@,
                    elapsed,
                    self.window,
                ),
            ensures
                self.window == old(self).window,
                self.samples@ == pruned(old(self).samples@, elapsed, self.window),
            decreases self.samples@.len(),
        {
            if self.samples.len() <= 1 {
                break;
            }
            let front = self.samples[0].elapsed;
            let gap: u128 = if elapsed > front {
                elapsed - front
            } else {
                0
            };
            if gap <= self.window {
                break;
            }
            let ghost before = self.samples@;
            self.samples.pop_front();
            assert(self.samples@ =~= before.drop_first());
        }
        self.samples.push_back(Sample { paths_done, elapsed });
    }

    /// The paths done and the time passed across the window, if it holds a sample.
    pub fn span(&self) -> (r: Option<(u64, u128)>)
        ensures
            r == span_spec(self.samples@),
    {
        let n = self.samples.len();
        if n == 0 {
            return None;
        }
        let front = self.samples[0];
        let back = self.samples[n - 1];
        let paths = back.paths_done.saturating_sub(front.paths_done);
        let time: u128 = if back.elapsed > front.elapsed {
            back.elapsed - front.elapsed
        } else {
            0
        };
        Some((paths, time))
    }
}

} // verus!
