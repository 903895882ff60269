//! Reading rsync's output: picking the latest file-name line and the latest progress
//! line out of a chunk of bytes, and the file counts a progress line carries.
use vstd::prelude::*;
use vstd::utf8::{encode_utf8, decode_utf8, valid_utf8};
use crate::text::{
    contains, decimal, find, find_exec, parse_u64_exec, parse_u64_spec, is_digit, starts_with,
    starts_with_exec, to_chars,
};

verus! {

broadcast use vstd::utf8::encode_utf8_decode_utf8;

// ---------------------------------------------------------------------------
// Specification
// ---------------------------------------------------------------------------

/// A line break byte (`\n` or `\r`).
pub open spec fn is_line_break(b: u8) -> bool {
    b == 10 || b == 13
}

/// A byte skipped between lines (`\n`, `\r` or a space).
pub open spec fn is_blank(b: u8) -> bool {
    b == 10 || b == 13 || b == 32
}

/// From index `j`, the index reached by stepping back over blank bytes (never below 0).
pub open spec fn skip_blank_back(buf: Seq<u8>, j: int) -> int
    decreases j,
{
    if j > 0 && is_blank(buf[j]) {
        skip_blank_back(buf, j - 1)
    } else {
        j
    }
}

/// The lines the backward scan inspects, latest first. The scan stands before index
/// `i`, and the line it is in ends (exclusively) at `last_end`. After each line break it
/// steps back over blanks (line breaks and spaces); the next line ends with the byte
/// where it stopped.
pub open spec fn segments(buf: Seq<u8>, i: int, last_end: int) -> Seq<Seq<u8>>
    decreases i,
{
    if i <= 0 {
        Seq::empty()
    } else {
        let j = i - 1;
        if is_line_break(buf[j]) {
            let k = skip_blank_back(buf, j);
            let rest = if 0 <= k < i {
                segments(buf, k, k + 1)
            } else {
                Seq::empty()
            };
            if j + 1 < last_end {
                seq![buf.subrange(j + 1, last_end)] + rest
            } else {
                rest
            }
        } else {
            segments(buf, j, last_end)
        }
    }
}

/// A line naming a file sent or deleted.
pub open spec fn is_name_line(l: Seq<char>) -> bool {
    starts_with(l, "send"@) || starts_with(l, "del."@)
}

/// A progress line.
pub open spec fn is_progress_line(l: Seq<char>) -> bool {
    !is_name_line(l) && contains(l, "(xfr#"@)
}

/// The first segment, decoded, that is valid UTF-8 and a name line (`name`) or a
/// progress line (`!name`).
pub open spec fn first_line(segs: Seq<Seq<u8>>, name: bool) -> Option<Seq<char>>
    decreases segs.len(),
{
    if segs.len() == 0 {
        None
    } else {
        let s = segs[0];
        let l = decode_utf8(s);
        if valid_utf8(s) && (if name {
            is_name_line(l)
        } else {
            is_progress_line(l)
        }) {
            Some(l)
        } else {
            first_line(segs.drop_first(), name)
        }
    }
}

/// The latest name line and the latest progress line in a chunk of rsync output.
pub open spec fn rsync_lines_spec(buf: Seq<u8>) -> (Option<Seq<char>>, Option<Seq<char>>) {
    let segs = segments(buf, buf.len() as int, buf.len() as int);
    (first_line(segs, true), first_line(segs, false))
}

/// The number of leading ASCII digits of `t`.
pub open spec fn digit_prefix_len(t: Seq<char>) -> int
    decreases t.len(),
{
    if t.len() == 0 || !is_digit(t[0]) {
        0
    } else {
        1 + digit_prefix_len(t.drop_first())
    }
}

/// `N/M...`: the number before the first `/` and the digits right after it.
pub open spec fn slashed_digits_spec(s: Seq<char>) -> Option<(u64, u64)> {
    match find(s, "/"@) {
        None => None,
        Some(x) => {
            let tail = s.subrange(x + 1, s.len() as int);
            let d = tail.subrange(0, digit_prefix_len(tail));
            match (parse_u64_spec(s.subrange(0, x)), parse_u64_spec(d)) {
                (Some(before), Some(after)) => Some((before, after)),
                _ => None,
            }
        },
    }
}

/// The files still to check and the files known, from `ir-chk=R/T` (or, if there is no
/// `ir-chk=`, `to-chk=R/T`) in a progress line.
pub open spec fn progress_counts(line: Seq<char>) -> Option<(u64, u64)> {
    let pos = match find(line, "ir-chk="@) {
        Some(x) => Some(x),
        None => find(line, "to-chk="@),
    };
    match pos {
        None => None,
        Some(x) => slashed_digits_spec(line.subrange(x + 7, line.len() as int)),
    }
}

// ---------------------------------------------------------------------------
// Trusted
// ---------------------------------------------------------------------------

/// `std::str::from_utf8`: succeeds exactly on well-formed UTF-8, and the string it gives
/// has the input as its bytes. The string is copied out.
#[verifier::external_body]
pub(crate) fn utf8_string(bytes: &[u8]) -> (r: Option<String>)
    ensures
        r is Some <==> valid_utf8(bytes@),
        r matches Some(s) ==> encode_utf8(s@) == bytes@,
{
    match std::str::from_utf8(bytes) {
        Ok(s) => Some(s.to_owned()),
        Err(_) => None,
    }
}

// ---------------------------------------------------------------------------
// Proofs
// ---------------------------------------------------------------------------

/// `buf[j + 1..e]` is a non-empty run of bytes right after the line break at `j`, with
/// no line break in it.
pub open spec fn line_slice_at(buf: Seq<u8>, j: int, e: int) -> bool {
    &&& 0 <= j
    &&& j + 1 < e <= buf.len()
    &&& is_line_break(buf[j])
    &&& forall|k: int| j < k < e ==> !is_line_break(#[trigger] buf[k])
}

/// `seg` is such a run of `buf`.
pub open spec fn is_line_slice(buf: Seq<u8>, seg: Seq<u8>) -> bool {
    exists|j: int, e: int| line_slice_at(buf, j, e) && seg == buf.subrange(j + 1, e)
}

/// `l` is the text of such a run of `buf`.
pub open spec fn is_line_of(buf: Seq<u8>, l: Seq<char>) -> bool {
    exists|j: int, e: int|
        line_slice_at(buf, j, e) && valid_utf8(buf.subrange(j + 1, e)) && l == decode_utf8(
            buf.subrange(j + 1, e),
        )
}

/// Stepping back over blanks stops at index 0 or at a byte that is not blank.
proof fn lemma_skip_blank_back(buf: Seq<u8>, j: int)
    requires
        0 <= j < buf.len(),
    ensures
        0 <= skip_blank_back(buf, j) <= j,
        skip_blank_back(buf, j) == 0 || !is_blank(buf[skip_blank_back(buf, j)]),
    decreases j,
{
    if j > 0 && is_blank(buf[j]) {
        lemma_skip_blank_back(buf, j - 1);
    }
}

/// Every segment the scan inspects is a run right after a line break, with no break in
/// it, provided the text from `i` to `last_end` holds no break.
proof fn lemma_segments_are_line_slices(buf: Seq<u8>, i: int, last_end: int)
    requires
        0 <= i <= last_end <= buf.len(),
        forall|k: int| i <= k < last_end ==> !is_line_break(#[trigger] buf[k]),
    ensures
        forall|n: int|
            0 <= n < segments(buf, i, last_end).len() ==> is_line_slice(
                buf,
                #[trigger] segments(buf, i, last_end)[n],
            ),
    decreases i,
{
    if i > 0 {
        let j = i - 1;
        if is_line_break(buf[j]) {
            let k = skip_blank_back(buf, j);
            lemma_skip_blank_back(buf, j);
            let rest = if 0 <= k < i {
                segments(buf, k, k + 1)
            } else {
                Seq::empty()
            };
            if k > 0 {
                lemma_segments_are_line_slices(buf, k, k + 1);
            } else {
                assert(segments(buf, 0, 1) =~= Seq::<Seq<u8>>::empty());
            }
            assert forall|n: int| 0 <= n < rest.len() implies is_line_slice(
                buf,
                #[trigger] rest[n],
            ) by {}
            if j + 1 >= last_end {
                assert(segments(buf, i, last_end) == rest);
            } else {
                let seg = buf.subrange(j + 1, last_end);
                assert(line_slice_at(buf, j, last_end));
                assert(is_line_slice(buf, seg));
                let all = seq![seg] + rest;
                assert(segments(buf, i, last_end) == all);
                assert forall|n: int| 0 <= n < all.len() implies is_line_slice(
                    buf,
                    #[trigger] all[n],
                ) by {
                    if n > 0 {
                        assert(all[n] == rest[n - 1]);
                    }
                }
            }
        } else {
            lemma_segments_are_line_slices(buf, j, last_end);
            assert(segments(buf, i, last_end) == segments(buf, j, last_end));
        }
    }
}

/// With no line break before `i`, the scan finds no segment.
proof fn lemma_segments_without_breaks(buf: Seq<u8>, i: int, last_end: int)
    requires
        i <= buf.len(),
        forall|k: int| 0 <= k < i ==> !is_line_break(#[trigger] buf[k]),
    ensures
        segments(buf, i, last_end) =~= Seq::<Seq<u8>>::empty(),
    decreases i,
{
    if i > 0 {
        assert(!is_line_break(buf[i - 1]));
        lemma_segments_without_breaks(buf, i - 1, last_end);
    }
}

/// A line the scan picks is the text of one of its segments.
proof fn lemma_first_line_is_line_of(buf: Seq<u8>, segs: Seq<Seq<u8>>, name: bool)
    requires
        forall|n: int| 0 <= n < segs.len() ==> is_line_slice(buf, #[trigger] segs[n]),
    ensures
        first_line(segs, name) matches Some(l) ==> is_line_of(buf, l),
    decreases segs.len(),
{
    if segs.len() > 0 {
        let s = segs[0];
        assert(is_line_slice(buf, s));
        if valid_utf8(s) && (if name {
            is_name_line(decode_utf8(s))
        } else {
            is_progress_line(decode_utf8(s))
        }) {
            let (j, e) = choose|j: int, e: int|
                line_slice_at(buf, j, e) && s == buf.subrange(j + 1, e);
            assert(line_slice_at(buf, j, e) && valid_utf8(buf.subrange(j + 1, e))
                && decode_utf8(s) == decode_utf8(buf.subrange(j + 1, e)));
        } else {
            let t = segs.drop_first();
            assert forall|n: int| 0 <= n < t.len() implies is_line_slice(buf, #[trigger] t[n]) by {
                assert(t[n] == segs[n + 1]);
            }
            lemma_first_line_is_line_of(buf, t, name);
        }
    }
}

/// Each line found is the text of a non-empty run of bytes right after a line break
/// (`\n` or `\r`) and holding none; a chunk without line breaks yields no line.
pub proof fn law_rsync_lines_are_whole_lines(buf: Seq<u8>)
    ensures
        rsync_lines_spec(buf).0 matches Some(l) ==> is_line_of(buf, l),
        rsync_lines_spec(buf).1 matches Some(l) ==> is_line_of(buf, l),
        (forall|k: int| 0 <= k < buf.len() ==> !is_line_break(#[trigger] buf[k]))
            ==> rsync_lines_spec(buf) == (None::<Seq<char>>, None::<Seq<char>>),
{
    let n = buf.len() as int;
    let segs = segments(buf, n, n);
    lemma_segments_are_line_slices(buf, n, n);
    lemma_first_line_is_line_of(buf, segs, true);
    lemma_first_line_is_line_of(buf, segs, false);
    if forall|k: int| 0 <= k < buf.len() ==> !is_line_break(#[trigger] buf[k]) {
        lemma_segments_without_breaks(buf, n, n);
    }
}

/// Leading digits of joined text.
proof fn lemma_digit_prefix_concat(a: Seq<char>, b: Seq<char>)
    requires
        b.len() == 0 || !is_digit(b[0]),
    ensures
        digit_prefix_len(a + b) == digit_prefix_len(a),
        0 <= digit_prefix_len(a) <= a.len(),
    decreases a.len(),
{
    if a.len() == 0 {
        assert(a + b =~= b);
    } else {
        assert((a + b)[0] == a[0]);
        assert((a + b).drop_first() =~= a.drop_first() + b);
        lemma_digit_prefix_concat(a.drop_first(), b);
    }
}

/// A search that succeeds within `s` is not changed by text appended to `s`.
proof fn lemma_find_from_append(s: Seq<char>, t: Seq<char>, p: Seq<char>, i: int)
    requires
        0 <= i,
        crate::text::find_from(s, p, i) is Some,
    ensures
        crate::text::find_from(s + t, p, i) == crate::text::find_from(s, p, i),
    decreases s.len() - i,
{
    let st = s + t;
    if i + p.len() <= s.len() {
        assert(st.subrange(i, i + p.len()) =~= s.subrange(i, i + p.len()));
        if !crate::text::occurs_at(s, p, i) {
            lemma_find_from_append(s, t, p, i + 1);
        }
    }
}

/// Text appended after the second number, not starting with a digit, does not change
/// what `slashed_digits` reads.
pub proof fn law_slashed_digits_ignore_appended(s: Seq<char>, t: Seq<char>)
    requires
        slashed_digits_spec(s) is Some,
        t.len() == 0 || !is_digit(t[0]),
    ensures
        slashed_digits_spec(s + t) == slashed_digits_spec(s),
{
    let x = find(s, "/"@)->Some_0;
    crate::text::lemma_find_from(s, "/"@, 0);
    lemma_find_from_append(s, t, "/"@, 0);
    reveal_strlit("/");
    let st = s + t;
    assert(st.subrange(0, x) =~= s.subrange(0, x));
    let tail = s.subrange(x + 1, s.len() as int);
    let tail2 = st.subrange(x + 1, st.len() as int);
    assert(tail2 =~= tail + t);
    lemma_digit_prefix_concat(tail, t);
    assert(tail2.subrange(0, digit_prefix_len(tail2)) =~= tail.subrange(0, digit_prefix_len(tail)));
}

/// The first match in a concatenation comes from the front part when it has one.
proof fn lemma_first_line_concat(a: Seq<Seq<u8>>, b: Seq<Seq<u8>>, name: bool)
    ensures
        first_line(a + b, name) == (match first_line(a, name) {
            Some(l) => Some(l),
            None => first_line(b, name),
        }),
    decreases a.len(),
{
    if a.len() == 0 {
        assert(a + b =~= b);
    } else {
        assert((a + b).drop_first() =~= a.drop_first() + b);
        assert((a + b)[0] == a[0]);
        lemma_first_line_concat(a.drop_first(), b, name);
    }
}

// ---------------------------------------------------------------------------
// Laws
// ---------------------------------------------------------------------------

/// Digits followed by a non-digit: the digit prefix is exactly the digits.
proof fn lemma_digit_prefix(d: Seq<char>, rest: Seq<char>)
    requires
        crate::text::all_digits(d),
        rest.len() == 0 || !is_digit(rest[0]),
    ensures
        digit_prefix_len(d + rest) == d.len(),
    decreases d.len(),
{
    if d.len() == 0 {
        assert(d + rest =~= rest);
    } else {
        assert((d + rest)[0] == d[0]);
        assert((d + rest).drop_first() =~= d.drop_first() + rest);
        assert(crate::text::all_digits(d.drop_first())) by {
            assert forall|i: int| 0 <= i < d.drop_first().len() implies is_digit(
                #[trigger] d.drop_first()[i],
            ) by {
                assert(d.drop_first()[i] == d[i + 1]);
            }
        }
        assert(is_digit(d[0]));
        lemma_digit_prefix(d.drop_first(), rest);
    }
}

/// The search for `/` passes over text that holds none.
proof fn lemma_find_slash(a: Seq<char>, b: Seq<char>, i: int)
    requires
        0 <= i <= a.len(),
        !a.contains('/'),
        b.len() > 0,
        b[0] == '/',
        "/"@ == seq!['/'],
    ensures
        crate::text::find_from(a + b, "/"@, i) == Some(a.len() as int),
    decreases a.len() - i,
{
    let s = a + b;
    if i < a.len() {
        assert(!crate::text::occurs_at(s, "/"@, i)) by {
            if crate::text::occurs_at(s, "/"@, i) {
                assert(s.subrange(i, i + 1)[0] == s[i]);
                assert(s[i] == a[i]);
                assert(a.contains('/'));
            }
        }
        lemma_find_slash(a, b, i + 1);
    } else {
        assert(s.subrange(i, i + 1) =~= seq!['/']);
    }
}

/// `slashed_digits` reads back two numbers written as `N/M`, whatever non-digit text
/// follows them.
pub proof fn law_slashed_digits_round_trip(n: u64, m: u64, rest: Seq<char>)
    requires
        rest.len() == 0 || !is_digit(rest[0]),
    ensures
        slashed_digits_spec(decimal(n as nat) + "/"@ + decimal(m as nat) + rest) == Some((n, m)),
{
    reveal_strlit("/");
    let dn = decimal(n as nat);
    let dm = decimal(m as nat);
    crate::text::lemma_decimal(n as nat);
    crate::text::lemma_decimal(m as nat);
    crate::text::lemma_parse_decimal(n);
    crate::text::lemma_parse_decimal(m);
    let s = dn + "/"@ + dm + rest;
    let b = "/"@ + dm + rest;
    assert(s =~= dn + b);
    assert(!dn.contains('/')) by {
        if dn.contains('/') {
            let i = choose|i: int| 0 <= i < dn.len() && dn[i] == '/';
            assert(is_digit(dn[i]));
        }
    }
    assert(b[0] == '/');
    assert("/"@ =~= seq!['/']);
    lemma_find_slash(dn, b, 0);
    let x = dn.len() as int;
    assert(s.subrange(0, x) =~= dn);
    let tail = s.subrange(x + 1, s.len() as int);
    assert(tail =~= dm + rest);
    lemma_digit_prefix(dm, rest);
    assert(tail.subrange(0, digit_prefix_len(tail)) =~= dm);
}

/// The name line found starts with `send` or `del.`; the progress line found does not,
/// and holds `(xfr#`.
pub proof fn law_rsync_line_kinds(buf: Seq<u8>)
    ensures
        rsync_lines_spec(buf).0 matches Some(l) ==> is_name_line(l),
        rsync_lines_spec(buf).1 matches Some(l) ==> is_progress_line(l),
{
    let segs = segments(buf, buf.len() as int, buf.len() as int);
    lemma_first_line_kind(segs, true);
    lemma_first_line_kind(segs, false);
}

proof fn lemma_first_line_kind(segs: Seq<Seq<u8>>, name: bool)
    ensures
        first_line(segs, name) matches Some(l) ==> (if name {
            is_name_line(l)
        } else {
            is_progress_line(l)
        }),
    decreases segs.len(),
{
    if segs.len() > 0 {
        lemma_first_line_kind(segs.drop_first(), name);
    }
}

// ---------------------------------------------------------------------------
// Implementation
// ---------------------------------------------------------------------------

/// Scans a chunk of rsync output backwards for the latest line naming a file
/// (`send...` or `del....`) and the latest progress line (one holding `(xfr#`).
pub fn rsync_lines(buf: &[u8]) -> (r: (Option<String>, Option<String>))
    ensures
        opt_chars(r.0) == rsync_lines_spec(buf@).0,
        opt_chars(r.1) == rsync_lines_spec(buf@).1,
{
    let ghost all = segments(buf@, buf@.len() as int, buf@.len() as int);
    let mut last_name: Option<String> = None;
    let mut last_progress: Option<String> = None;
    let mut i = buf.len();
    let mut last_end = i;
    let ghost mut seen: Seq<Seq<u8>> = Seq::empty();
    assert(all =~= seen + segments(buf@, i as int, last_end as int));
    while i > 0 && (last_name.is_none() || last_progress.is_none())
        invariant
            i <= last_end <= buf@.len(),
            all == segments(buf@, buf@.len() as int, buf@.len() as int),
            all =~= seen + segments(buf@, i as int, last_end as int),
            opt_chars(last_name) == first_line(seen, true),
            opt_chars(last_progress) == first_line(seen, false),
        decreases i,
    {
        let ghost old_i = i as int;
        let ghost old_end = last_end as int;
        i = i - 1;
        if buf[i] == 10u8 || buf[i] == 13u8 {
            let ghost j = i as int;
            let ghost k = skip_blank_back(buf@, j);
            let ghost mut found: Seq<Seq<u8>> = Seq::empty();
            if i + 1 < last_end {
                let seg = vstd::slice::slice_subrange(buf, i + 1, last_end);
                proof {
                    found = seq![buf@.subrange(j + 1, old_end)];
                }
                if let Some(line) = utf8_string(seg) {
                    let v = to_chars(line.as_str());
                    assert(decode_utf8(seg@) == line@);
                    if starts_with_exec(&v, "send") || starts_with_exec(&v, "del.") {
                        if last_name.is_none() {
                            last_name = Some(line);
                        }
                    } else if last_progress.is_none() && find_exec(&v, "(xfr#", 0).is_some() {
                        last_progress = Some(line);
                    }
                }
            }
            proof {
                lemma_first_line_concat(seen, found, true);
                lemma_first_line_concat(seen, found, false);
                assert(first_line(Seq::<Seq<u8>>::empty(), true) is None);
                assert(first_line(Seq::<Seq<u8>>::empty(), false) is None);
                if found.len() > 0 {
                    assert(found.drop_first() =~= Seq::<Seq<u8>>::empty());
                    let f = found[0];
                    assert(first_line(found, true) == (if valid_utf8(f) && is_name_line(
                        decode_utf8(f),
                    ) {
                        Some(decode_utf8(f))
                    } else {
                        None
                    }));
                    assert(first_line(found, false) == (if valid_utf8(f) && is_progress_line(
                        decode_utf8(f),
                    ) {
                        Some(decode_utf8(f))
                    } else {
                        None
                    }));
                } else {
                    assert(first_line(found, true) is None);
                    assert(first_line(found, false) is None);
                }
                seen = seen + found;
            }
            while i > 0 && (buf[i] == 10u8 || buf[i] == 13u8 || buf[i] == 32u8)
                invariant
                    i <= j < buf@.len(),
                    skip_blank_back(buf@, i as int) == k,
                decreases i,
            {
                i = i - 1;
            }
            proof {
                assert(segments(buf@, old_i, old_end) =~= found + segments(
                    buf@,
                    i as int,
                    i + 1,
                ));
            }
            last_end = i + 1;
        } else {
            assert(segments(buf@, old_i, old_end) == segments(buf@, i as int, last_end as int));
        }
    }
    proof {
        let rest = segments(buf@, i as int, last_end as int);
        lemma_first_line_concat(seen, rest, true);
        lemma_first_line_concat(seen, rest, false);
        if i == 0 {
            assert(rest =~= Seq::<Seq<u8>>::empty());
            assert(seen + rest =~= seen);
        }
    }
    (last_name, last_progress)
}

/// The characters of an optional string.
pub open spec fn opt_chars(o: Option<String>) -> Option<Seq<char>> {
    match o {
        Some(s) => Some(s@),
        None => None,
    }
}

/// The number of leading digits of `v[from..]`.
fn digit_prefix_len_exec(v: &Vec<char>, from: usize) -> (n: usize)
    requires
        from <= v@.len(),
    ensures
        from + n <= v@.len(),
        n == digit_prefix_len(v@.subrange(from as int, v@.len() as int)),
{
    let mut i = from;
    while i < v.len() && '0' <= v[i] && v[i] <= '9'
        invariant
            from <= i <= v@.len(),
            digit_prefix_len(v@.subrange(from as int, v@.len() as int)) == (i - from)
                + digit_prefix_len(v@.subrange(i as int, v@.len() as int)),
        decreases v@.len() - i,
    {
        let ghost t = v@.subrange(i as int, v@.len() as int);
        assert(t.drop_first() =~= v@.subrange(i + 1, v@.len() as int));
        i = i + 1;
    }
    i - from
}

/// `N/M...` in `v[from..]`: the number before the first `/` and the digits right after it.
fn slashed_digits_at(v: &Vec<char>, from: usize) -> (r: Option<(u64, u64)>)
    requires
        from <= v@.len(),
    ensures
        r == slashed_digits_spec(v@.subrange(from as int, v@.len() as int)),
{
    let ghost s = v@.subrange(from as int, v@.len() as int);
    proof {
        reveal_strlit("/");
        crate::text::lemma_find_from(s, "/"@, 0);
    }
    let x = match find_slash_from(v, from) {
        Some(x) => x,
        None => return None,
    };
    let ghost k = find(s, "/"@)->Some_0;
    assert(find(s, "/"@) == Some(k));
    assert(crate::text::occurs_at(s, "/"@, k));
    assert("/"@.len() == 1);
    assert(x == from + k);
    let len = v.len();
    assert(x + 1 <= len);
    let n = digit_prefix_len_exec(v, x + 1);
    let before = parse_u64_exec(v, from, x);
    let after = parse_u64_exec(v, x + 1, x + 1 + n);
    proof {
        let xs = x - from;
        let tail = s.subrange(xs + 1, s.len() as int);
        assert(tail =~= v@.subrange(x + 1, v@.len() as int));
        assert(s.subrange(0, xs) =~= v@.subrange(from as int, x as int));
        assert(tail.subrange(0, digit_prefix_len(tail)) =~= v@.subrange(x + 1, x + 1 + n));
    }
    match (before, after) {
        (Some(b), Some(a)) => Some((b, a)),
        _ => None,
    }
}

/// The first `/` at or after `from`, counted in `v` but specified against `v[from..]`.
fn find_slash_from(v: &Vec<char>, from: usize) -> (r: Option<usize>)
    requires
        from <= v@.len(),
    ensures
        match find(v@.subrange(from as int, v@.len() as int), "/"@) {
            Some(k) => r matches Some(x) && x == from + k,
            None => r is None,
        },
{
    let ghost s = v@.subrange(from as int, v@.len() as int);
    proof {
        reveal_strlit("/");
    }
    let mut i = from;
    while i < v.len()
        invariant
            from <= i <= v@.len(),
            s == v@.subrange(from as int, v@.len() as int),
            "/"@ == seq!['/'],
            find(s, "/"@) == crate::text::find_from(s, "/"@, i - from),
        decreases v@.len() - i,
    {
        assert(crate::text::occurs_at(s, "/"@, i - from) <==> v@[i as int] == '/') by {
            if v@[i as int] == '/' {
                assert(s.subrange(i - from, i - from + 1) =~= seq!['/']);
            } else {
                assert(s.subrange(i - from, i - from + 1)[0] == v@[i as int]);
            }
        }
        if v[i] == '/' {
            return Some(i);
        }
        i = i + 1;
    }
    None
}

/// Parses `N/M...`: the number before the first `/` and the digits right after it
/// (trailing text after those digits is ignored).
pub fn slashed_digits(s: &str) -> (r: Option<(u64, u64)>)
    ensures
        r == slashed_digits_spec(s@),
{
    let v = to_chars(s);
    assert(v@.subrange(0, v@.len() as int) =~= v@);
    slashed_digits_at(&v, 0)
}

/// The file counts of a progress line, see `progress_counts`.
pub fn progress_counts_exec(line: &String) -> (r: Option<(u64, u64)>)
    ensures
        r == progress_counts(line@),
{
    let v = to_chars(line.as_str());
    proof {
        reveal_strlit("ir-chk=");
        reveal_strlit("to-chk=");
        crate::text::lemma_find_from(v@, "ir-chk="@, 0);
        crate::text::lemma_find_from(v@, "to-chk="@, 0);
    }
    let pos = match find_exec(&v, "ir-chk=", 0) {
        Some(x) => Some(x),
        None => find_exec(&v, "to-chk=", 0),
    };
    match pos {
        None => None,
        Some(x) => slashed_digits_at(&v, x + 7),
    }
}

} // verus!
