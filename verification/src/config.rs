//! Command-line handling: which options rsyncp accepts, which rsync arguments it
//! refuses, and how the cookie that names a command's state is formed.
use vstd::prelude::*;
use crate::text::{
    decimal, equals_exec, find_char_exec, push_char, push_decimal, push_str, starts_with,
    starts_with_exec, to_chars,
};

verus! {

/// The usage line printed for `-h` and for malformed command lines.
pub const USAGE: &'static str = "usage: rsyncp [-h] [-i] [-x <str> [...-x <str>] | -c <cookie>] [-r <rsync_name>] -- <rsync_arg_1> [... <rsync_arg_n>]";

/// Why a command line was not accepted.
#[derive(Debug, Clone, Copy, PartialEq, Eq, Structural)]
pub enum ConfigError {
    /// Print the usage line and exit with this code (`0` for `-h`).
    Usage(i32),
    /// `-i`: print the version and exit successfully.
    Version,
    /// An rsync argument asks for human-readable numbers.
    HumanReadable,
    /// An rsync argument sets `--info`.
    Info,
    /// An rsync argument sets `--outbuf`.
    Outbuf,
    /// An rsync argument sets `--out-format`.
    OutFormat,
    /// An rsync argument asks for itemized changes.
    ItemizeChanges,
}

impl ConfigError {
    /// The exit code that goes with this outcome.
    pub fn exit_code(&self) -> (c: i32)
        ensures
            c == (match *self {
                ConfigError::Usage(code) => code,
                ConfigError::Version => 0,
                _ => 1,
            }),
    {
        match self {
            ConfigError::Usage(code) => *code,
            ConfigError::Version => 0,
            _ => 1,
        }
    }

    /// The text printed for this outcome (for `Version`, the prefix of the version line).
    pub fn message(&self) -> (s: String)
        ensures
            s@ == error_message(*self),
    {
        let mut s = String::new();
        match self {
            ConfigError::Usage(_) => push_str(&mut s, USAGE),
            ConfigError::Version => push_str(&mut s, "rsyncp version "),
            ConfigError::HumanReadable => push_str(
                &mut s,
                "error: passing -h/--human-readable to rsync",
            ),
            ConfigError::Info => push_str(&mut s, "error: passing --info to rsync"),
            ConfigError::Outbuf => push_str(&mut s, "error: passing --outbuf to rsync"),
            ConfigError::OutFormat => push_str(&mut s, "error: passing --out-format to rsync"),
            ConfigError::ItemizeChanges => push_str(
                &mut s,
                "error: passing -i/--itemize-changes to rsync",
            ),
        }
        assert(s@ =~= error_message(*self));
        s
    }
}

/// The text that goes with each outcome.
pub open spec fn error_message(e: ConfigError) -> Seq<char> {
    match e {
        ConfigError::Usage(_) => USAGE@,
        ConfigError::Version => "rsyncp version "@,
        ConfigError::HumanReadable => "error: passing -h/--human-readable to rsync"@,
        ConfigError::Info => "error: passing --info to rsync"@,
        ConfigError::Outbuf => "error: passing --outbuf to rsync"@,
        ConfigError::OutFormat => "error: passing --out-format to rsync"@,
        ConfigError::ItemizeChanges => "error: passing -i/--itemize-changes to rsync"@,
    }
}

/// A parsed command line.
pub struct Config {
    /// Names the state kept for this command between runs.
    pub cookie: String,
    /// The rsync program to run (`-r`, by default `rsync`).
    pub rsync_name: String,
    /// The arguments handed on to rsync.
    pub rsync_args: Vec<String>,
    /// Whether the status line is drawn (stdout is a terminal).
    pub show_progress: bool,
}

// ---------------------------------------------------------------------------
// Specification
// ---------------------------------------------------------------------------

/// The options before `--`, read one at a time. `cookie` is the user cookie seen so
/// far (already prefixed with `u`), `excluded` the `-x` strings seen so far, `name` the
/// rsync program named by `-r` (the last one counts). The result is the final cookie,
/// the excluded strings, the program name and the arguments after `--`.
pub open spec fn scan_options(
    args: Seq<Seq<char>>,
    cookie: Option<Seq<char>>,
    excluded: Seq<Seq<char>>,
    name: Option<Seq<char>>,
) -> Result<(Option<Seq<char>>, Seq<Seq<char>>, Option<Seq<char>>, Seq<Seq<char>>), ConfigError>
    decreases args.len(),
{
    if args.len() == 0 {
        Ok((cookie, excluded, name, Seq::empty()))
    } else {
        let a = args[0];
        let rest = args.drop_first();
        if a == "--"@ {
            Ok((cookie, excluded, name, rest))
        } else if a == "-c"@ {
            if cookie is Some || excluded.len() > 0 || rest.len() == 0 {
                Err(ConfigError::Usage(1))
            } else {
                scan_options(rest.drop_first(), Some(seq!['u'] + rest[0]), excluded, name)
            }
        } else if a == "-h"@ {
            Err(ConfigError::Usage(0))
        } else if a == "-i"@ {
            Err(ConfigError::Version)
        } else if a == "-x"@ {
            if cookie is Some || rest.len() == 0 {
                Err(ConfigError::Usage(1))
            } else {
                scan_options(rest.drop_first(), cookie, excluded.push(rest[0]), name)
            }
        } else if a == "-r"@ {
            if rest.len() == 0 {
                Err(ConfigError::Usage(1))
            } else {
                scan_options(rest.drop_first(), cookie, excluded, Some(rest[0]))
            }
        } else {
            Err(ConfigError::Usage(1))
        }
    }
}

/// A single-dash option cluster such as `-avz`.
pub open spec fn is_short_cluster(x: Seq<char>) -> bool {
    starts_with(x, "-"@) && !starts_with(x, "--"@)
}

/// The objection to one rsync argument, if any; the checks are made in this order.
pub open spec fn arg_violation(x: Seq<char>) -> Option<ConfigError> {
    if starts_with(x, "--human-readable"@) || (is_short_cluster(x) && x.contains('h')) {
        Some(ConfigError::HumanReadable)
    } else if starts_with(x, "--info="@) {
        Some(ConfigError::Info)
    } else if starts_with(x, "--outbuf"@) {
        Some(ConfigError::Outbuf)
    } else if starts_with(x, "--out-format"@) {
        Some(ConfigError::OutFormat)
    } else if starts_with(x, "--itemize-changes"@) || (is_short_cluster(x) && x.contains('i')) {
        Some(ConfigError::ItemizeChanges)
    } else {
        None
    }
}

/// The objection to the first rsync argument that has one.
pub open spec fn first_violation(args: Seq<Seq<char>>) -> Option<ConfigError>
    decreases args.len(),
{
    if args.len() == 0 {
        None
    } else {
        match arg_violation(args[0]) {
            Some(e) => Some(e),
            None => first_violation(args.drop_first()),
        }
    }
}

/// `args` with every element that occurs in `excluded` removed.
pub open spec fn without(args: Seq<Seq<char>>, excluded: Seq<Seq<char>>) -> Seq<Seq<char>>
    decreases args.len(),
{
    if args.len() == 0 {
        Seq::empty()
    } else {
        let r = without(args.drop_last(), excluded);
        if excluded.contains(args.last()) {
            r
        } else {
            r.push(args.last())
        }
    }
}

/// The FNV-1a offset basis and prime (64-bit).
pub open spec fn fnv_offset() -> u64 {
    0xCBF29CE484222325
}

pub open spec fn fnv_prime() -> u64 {
    0x100000001B3
}

/// One FNV-1a step: xor in the byte, then multiply modulo 2^64.
pub open spec fn fnv_step(h: u64, b: u8) -> u64 {
    (((h ^ (b as u64)) as nat * fnv_prime() as nat) % 0x1_0000_0000_0000_0000) as u64
}

/// FNV-1a over `bytes`, starting from the hash `h`.
pub open spec fn fnv_bytes(h: u64, bytes: Seq<u8>) -> u64
    decreases bytes.len(),
{
    if bytes.len() == 0 {
        h
    } else {
        fnv_step(fnv_bytes(h, bytes.drop_last()), bytes.last())
    }
}

/// The UTF-8 bytes of all strings, one after another.
pub open spec fn utf8_of_all(items: Seq<Seq<char>>) -> Seq<u8>
    decreases items.len(),
{
    if items.len() == 0 {
        Seq::empty()
    } else {
        utf8_of_all(items.drop_last()) + vstd::utf8::encode_utf8(items.last())
    }
}

/// The 64-bit FNV-1a hash of the concatenated UTF-8 bytes of `items`.
pub open spec fn fnv1a_spec(items: Seq<Seq<char>>) -> u64 {
    fnv_bytes(fnv_offset(), utf8_of_all(items))
}

/// The cookie: the user's (already `u`-prefixed) if given, else `h` and the decimal
/// FNV-1a hash of the rsync arguments that were not excluded.
pub open spec fn cookie_for(
    user: Option<Seq<char>>,
    rsync_args: Seq<Seq<char>>,
    excluded: Seq<Seq<char>>,
) -> Seq<char> {
    match user {
        Some(c) => c,
        None => seq!['h'] + decimal(fnv1a_spec(without(rsync_args, excluded)) as nat),
    }
}

/// The options that follow the program name.
pub open spec fn options_of(args: Seq<Seq<char>>) -> Seq<Seq<char>> {
    if args.len() == 0 {
        args
    } else {
        args.drop_first()
    }
}

/// What a command line (program name first) gives: the cookie and the rsync
/// arguments, or why it is refused.
pub open spec fn config_spec(args: Seq<Seq<char>>) -> Result<
    (Seq<char>, Seq<Seq<char>>),
    ConfigError,
> {
    match scan_options(options_of(args), None, Seq::empty(), None) {
        Err(e) => Err(e),
        Ok((user, excluded, _, rsync)) => {
            if rsync.len() == 0 {
                Err(ConfigError::Usage(1))
            } else {
                match first_violation(rsync) {
                    Some(e) => Err(e),
                    None => Ok((cookie_for(user, rsync, excluded), rsync)),
                }
            }
        },
    }
}

/// The rsync program a command line names: the last `-r` value, else `rsync`.
pub open spec fn rsync_name_spec(args: Seq<Seq<char>>) -> Seq<char> {
    match scan_options(options_of(args), None, Seq::empty(), None) {
        Ok((_, _, Some(r), _)) => r,
        _ => "rsync"@,
    }
}

/// The characters of an optional string.
pub open spec fn opt_view(o: Option<String>) -> Option<Seq<char>> {
    match o {
        Some(s) => Some(s@),
        None => None,
    }
}

/// The command line supplies its own cookie with `-c`.
pub open spec fn has_user_cookie(args: Seq<Seq<char>>) -> bool {
    scan_options(options_of(args), None, Seq::empty(), None) matches Ok((Some(_), _, _, _))
}

// ---------------------------------------------------------------------------
// Laws
// ---------------------------------------------------------------------------

/// A user cookie, once formed, starts with `u`, and scanning keeps it so.
proof fn lemma_scan_user_cookie(
    args: Seq<Seq<char>>,
    cookie: Option<Seq<char>>,
    excluded: Seq<Seq<char>>,
    name: Option<Seq<char>>,
)
    requires
        cookie matches Some(c) ==> c.len() > 0 && c[0] == 'u',
    ensures
        scan_options(args, cookie, excluded, name) matches Ok((Some(c), _, _, _)) ==> c.len() > 0
            && c[0] == 'u',
    decreases args.len(),
{
    if args.len() > 0 {
        let rest = args.drop_first();
        if rest.len() > 0 {
            lemma_scan_user_cookie(rest.drop_first(), Some(seq!['u'] + rest[0]), excluded, name);
            lemma_scan_user_cookie(rest.drop_first(), cookie, excluded.push(rest[0]), name);
            lemma_scan_user_cookie(rest.drop_first(), cookie, excluded, Some(rest[0]));
        }
    }
}

/// Removing nothing leaves the arguments as they are.
proof fn lemma_without_nothing(args: Seq<Seq<char>>)
    ensures
        without(args, Seq::empty()) == args,
    decreases args.len(),
{
    if args.len() > 0 {
        lemma_without_nothing(args.drop_last());
        assert(args.drop_last().push(args.last()) =~= args);
    }
}

/// Every argument past the first objection-free prefix has been checked.
proof fn lemma_first_violation_none(args: Seq<Seq<char>>)
    requires
        first_violation(args) is None,
    ensures
        forall|i: int| 0 <= i < args.len() ==> arg_violation(#[trigger] args[i]) is None,
    decreases args.len(),
{
    if args.len() > 0 {
        lemma_first_violation_none(args.drop_first());
        assert forall|i: int| 0 <= i < args.len() implies arg_violation(#[trigger] args[i])
            is None by {
            if i > 0 {
                assert(args[i] == args.drop_first()[i - 1]);
            }
        }
    }
}

/// The option words are distinct strings.
proof fn lemma_option_words()
    ensures
        "--"@ != "-c"@,
        "--"@ != "-x"@,
        "-c"@ != "-x"@,
        "-c"@ != "-h"@,
        "-c"@ != "-i"@,
        "-x"@ != "-h"@,
        "-x"@ != "-i"@,
        "-r"@ != "--"@,
        "-r"@ != "-c"@,
        "-r"@ != "-x"@,
        "-r"@ != "-h"@,
        "-r"@ != "-i"@,
        "--"@.len() == 2,
{
    reveal_strlit("--");
    reveal_strlit("-c");
    reveal_strlit("-x");
    reveal_strlit("-h");
    reveal_strlit("-i");
    reveal_strlit("-r");
    assert("-r"@[1] != "--"@[1]);
    assert("-r"@[1] != "-c"@[1]);
    assert("-r"@[1] != "-x"@[1]);
    assert("-r"@[1] != "-h"@[1]);
    assert("-r"@[1] != "-i"@[1]);
    assert("--"@[1] != "-c"@[1]);
    assert("--"@[1] != "-x"@[1]);
    assert("-c"@[1] != "-x"@[1]);
    assert("-c"@[1] != "-h"@[1]);
    assert("-c"@[1] != "-i"@[1]);
    assert("-x"@[1] != "-h"@[1]);
    assert("-x"@[1] != "-i"@[1]);
}

/// User cookies can't clash with the cookies rsyncp forms itself: a command line that
/// supplies `-c` and one that does not never share a cookie.
pub proof fn law_user_cookie_never_clashes(a1: Seq<Seq<char>>, a2: Seq<Seq<char>>)
    requires
        config_spec(a1) is Ok,
        config_spec(a2) is Ok,
        has_user_cookie(a1),
        !has_user_cookie(a2),
    ensures
        config_spec(a1)->Ok_0.0 != config_spec(a2)->Ok_0.0,
{
    lemma_scan_user_cookie(options_of(a1), None, Seq::empty(), None);
    let c1 = config_spec(a1)->Ok_0.0;
    let c2 = config_spec(a2)->Ok_0.0;
    assert(c1[0] == 'u');
    assert(c2[0] == 'h');
}

/// `-x <str>` takes an rsync argument out of the cookie: excluding `e` gives the same
/// cookie as leaving every `e` out of the rsync arguments.
pub proof fn law_excluded_arg_ignored(
    prog: Seq<char>,
    e: Seq<char>,
    rsync: Seq<Seq<char>>,
)
    requires
        config_spec(seq![prog, "-x"@, e, "--"@] + rsync) is Ok,
        config_spec(seq![prog, "--"@] + without(rsync, seq![e])) is Ok,
    ensures
        config_spec(seq![prog, "-x"@, e, "--"@] + rsync)->Ok_0.0 == config_spec(
            seq![prog, "--"@] + without(rsync, seq![e]),
        )->Ok_0.0,
{
    lemma_option_words();
    let empty = Seq::<Seq<char>>::empty();
    let a1 = seq![prog, "-x"@, e, "--"@] + rsync;
    let o1 = options_of(a1);
    let t1 = o1.drop_first().drop_first();
    assert(o1[0] == "-x"@);
    assert(o1.drop_first()[0] == e);
    assert(t1[0] == "--"@);
    assert(t1.drop_first() =~= rsync);
    assert(empty.push(e) =~= seq![e]);
    assert(scan_options(o1, None, empty, None) == scan_options(t1, None, seq![e], None));
    assert(scan_options(t1, None, seq![e], None) == Ok::<
        (Option<Seq<char>>, Seq<Seq<char>>, Option<Seq<char>>, Seq<Seq<char>>),
        ConfigError,
    >((None, seq![e], None, rsync)));
    let kept = without(rsync, seq![e]);
    let a2 = seq![prog, "--"@] + kept;
    let o2 = options_of(a2);
    assert(o2[0] == "--"@);
    assert(o2.drop_first() =~= kept);
    assert(scan_options(o2, None, empty, None) == Ok::<
        (Option<Seq<char>>, Seq<Seq<char>>, Option<Seq<char>>, Seq<Seq<char>>),
        ConfigError,
    >((None, empty, None, kept)));
    lemma_without_nothing(kept);
}

/// `-c` and `-x` are mutually exclusive, in either order.
pub proof fn law_cookie_and_exclude_exclusive(
    prog: Seq<char>,
    c: Seq<char>,
    x: Seq<char>,
    rest: Seq<Seq<char>>,
)
    ensures
        config_spec(seq![prog, "-c"@, c, "-x"@, x] + rest) == Err::<
            (Seq<char>, Seq<Seq<char>>),
            ConfigError,
        >(ConfigError::Usage(1)),
        config_spec(seq![prog, "-x"@, x, "-c"@, c] + rest) == Err::<
            (Seq<char>, Seq<Seq<char>>),
            ConfigError,
        >(ConfigError::Usage(1)),
{
    lemma_option_words();
    let empty = Seq::<Seq<char>>::empty();
    let err = Err::<(Option<Seq<char>>, Seq<Seq<char>>, Option<Seq<char>>, Seq<Seq<char>>), ConfigError>(
        ConfigError::Usage(1),
    );
    let o1 = options_of(seq![prog, "-c"@, c, "-x"@, x] + rest);
    let t1 = o1.drop_first().drop_first();
    assert(o1[0] == "-c"@);
    assert(o1.drop_first()[0] == c);
    assert(t1[0] == "-x"@);
    assert(scan_options(o1, None, empty, None) == scan_options(t1, Some(seq!['u'] + c), empty, None));
    assert(scan_options(t1, Some(seq!['u'] + c), empty, None) == err);
    let o2 = options_of(seq![prog, "-x"@, x, "-c"@, c] + rest);
    let t2 = o2.drop_first().drop_first();
    assert(o2[0] == "-x"@);
    assert(o2.drop_first()[0] == x);
    assert(t2[0] == "-c"@);
    assert(scan_options(o2, None, empty, None) == scan_options(t2, None, empty.push(x), None));
    assert(scan_options(t2, None, empty.push(x), None) == err);
}

/// All strings joined into one.
pub open spec fn concat_all(items: Seq<Seq<char>>) -> Seq<char>
    decreases items.len(),
{
    if items.len() == 0 {
        Seq::empty()
    } else {
        concat_all(items.drop_last()) + items.last()
    }
}

/// The UTF-8 encoding of joined text is the joined encodings.
proof fn lemma_encode_utf8_concat(a: Seq<char>, b: Seq<char>)
    ensures
        vstd::utf8::encode_utf8(a + b) == vstd::utf8::encode_utf8(a) + vstd::utf8::encode_utf8(b),
    decreases a.len(),
{
    if a.len() == 0 {
        assert(a + b =~= b);
        assert(vstd::utf8::encode_utf8(a) =~= Seq::<u8>::empty());
        assert(Seq::<u8>::empty() + vstd::utf8::encode_utf8(b) =~= vstd::utf8::encode_utf8(b));
    } else {
        assert((a + b)[0] == a[0]);
        assert((a + b).drop_first() =~= a.drop_first() + b);
        lemma_encode_utf8_concat(a.drop_first(), b);
        let h = vstd::utf8::encode_scalar(a[0] as u32);
        assert(h + (vstd::utf8::encode_utf8(a.drop_first()) + vstd::utf8::encode_utf8(b)) =~= (h
            + vstd::utf8::encode_utf8(a.drop_first())) + vstd::utf8::encode_utf8(b));
    }
}

/// The bytes hashed are the encoding of the joined strings.
proof fn lemma_utf8_of_all(items: Seq<Seq<char>>)
    ensures
        utf8_of_all(items) == vstd::utf8::encode_utf8(concat_all(items)),
    decreases items.len(),
{
    if items.len() == 0 {
        assert(vstd::utf8::encode_utf8(Seq::<char>::empty()) =~= Seq::<u8>::empty());
    } else {
        lemma_utf8_of_all(items.drop_last());
        lemma_encode_utf8_concat(concat_all(items.drop_last()), items.last());
    }
}

/// FNV-1a of a list of strings depends only on the strings joined: splitting the same
/// text differently, or not at all, gives the same hash.
pub proof fn law_fnv1a_depends_only_on_joined_text(a: Seq<Seq<char>>, b: Seq<Seq<char>>)
    requires
        concat_all(a) == concat_all(b),
    ensures
        fnv1a_spec(a) == fnv1a_spec(b),
        fnv1a_spec(a) == fnv1a_spec(seq![concat_all(a)]),
{
    lemma_utf8_of_all(a);
    lemma_utf8_of_all(b);
    let one = seq![concat_all(a)];
    lemma_utf8_of_all(one);
    assert(one.drop_last() =~= Seq::<Seq<char>>::empty());
    assert(concat_all(Seq::<Seq<char>>::empty()) =~= Seq::<char>::empty());
    assert(one.last() == concat_all(a));
    assert(concat_all(one) =~= Seq::<char>::empty() + concat_all(a));
    assert(Seq::<char>::empty() + concat_all(a) =~= concat_all(a));
}

/// A user cookie is `u` and the `-c` value; a cookie rsyncp forms is `h` and the
/// decimal digits of a `u64`.
pub proof fn law_cookie_forms(args: Seq<Seq<char>>)
    requires
        config_spec(args) is Ok,
    ensures
        has_user_cookie(args) ==> config_spec(args)->Ok_0.0.len() > 0 && config_spec(
            args,
        )->Ok_0.0[0] == 'u',
        !has_user_cookie(args) ==> {
            let c = config_spec(args)->Ok_0.0;
            &&& c.len() > 1
            &&& c[0] == 'h'
            &&& crate::text::all_digits(c.drop_first())
            &&& crate::text::digits_value(c.drop_first()) <= u64::MAX
        },
{
    lemma_scan_user_cookie(options_of(args), None, Seq::empty(), None);
    if !has_user_cookie(args) {
        let c = config_spec(args)->Ok_0.0;
        match scan_options(options_of(args), None, Seq::empty(), None) {
            Ok((_, excluded, _, rsync)) => {
                let n = fnv1a_spec(without(rsync, excluded));
                crate::text::lemma_decimal(n as nat);
                assert(c == seq!['h'] + decimal(n as nat));
                assert(c.drop_first() =~= decimal(n as nat));
            },
            Err(_) => {},
        }
    }
}

/// The options `w0 v0 w1 v1 ...` written out from (option, value) pairs.
pub open spec fn option_pairs(ps: Seq<(Seq<char>, Seq<char>)>) -> Seq<Seq<char>>
    decreases ps.len(),
{
    if ps.len() == 0 {
        Seq::empty()
    } else {
        seq![ps[0].0, ps[0].1] + option_pairs(ps.drop_first())
    }
}

/// Every pair is a `-r` option.
pub open spec fn only_r(ps: Seq<(Seq<char>, Seq<char>)>) -> bool {
    forall|i: int| 0 <= i < ps.len() ==> (#[trigger] ps[i]).0 == "-r"@
}

/// Every pair is a `-x` or a `-r` option.
pub open spec fn only_x_or_r(ps: Seq<(Seq<char>, Seq<char>)>) -> bool {
    forall|i: int| 0 <= i < ps.len() ==> (#[trigger] ps[i]).0 == "-x"@ || ps[i].0 == "-r"@
}

/// The values of the `-x` pairs, in order.
pub open spec fn x_values(ps: Seq<(Seq<char>, Seq<char>)>) -> Seq<Seq<char>>
    decreases ps.len(),
{
    if ps.len() == 0 {
        Seq::empty()
    } else if ps[0].0 == "-x"@ {
        seq![ps[0].1] + x_values(ps.drop_first())
    } else {
        x_values(ps.drop_first())
    }
}

/// The program named by the last `-r` pair, or `name` if there is none.
pub open spec fn named_program(ps: Seq<(Seq<char>, Seq<char>)>, name: Option<Seq<char>>) -> Option<
    Seq<char>,
>
    decreases ps.len(),
{
    if ps.len() == 0 {
        name
    } else {
        named_program(
            ps.drop_first(),
            if ps[0].0 == "-r"@ {
                Some(ps[0].1)
            } else {
                name
            },
        )
    }
}

/// The options `<before> -c v <after>`.
pub open spec fn options_with_cookie(
    before: Seq<(Seq<char>, Seq<char>)>,
    v: Seq<char>,
    after: Seq<(Seq<char>, Seq<char>)>,
) -> Seq<Seq<char>> {
    option_pairs(before) + seq!["-c"@, v] + option_pairs(after)
}

/// The command line `p <before> -c v <after> -- r`.
pub open spec fn command_with_cookie(
    p: Seq<char>,
    before: Seq<(Seq<char>, Seq<char>)>,
    v: Seq<char>,
    after: Seq<(Seq<char>, Seq<char>)>,
    r: Seq<Seq<char>>,
) -> Seq<Seq<char>> {
    seq![p] + options_with_cookie(before, v, after) + seq!["--"@] + r
}

/// The command line `p <ps> -- r`.
pub open spec fn command_without_cookie(
    p: Seq<char>,
    ps: Seq<(Seq<char>, Seq<char>)>,
    r: Seq<Seq<char>>,
) -> Seq<Seq<char>> {
    seq![p] + option_pairs(ps) + seq!["--"@] + r
}

/// The program to run when the options name `o`.
pub open spec fn program_or_default(o: Option<Seq<char>>) -> Seq<char> {
    match o {
        Some(n) => n,
        None => "rsync"@,
    }
}

/// Pairs with a value in front of them.
proof fn lemma_option_pairs_cons(
    a: Seq<char>,
    v: Seq<char>,
    ps: Seq<(Seq<char>, Seq<char>)>,
)
    ensures
        (seq![(a, v)] + ps).drop_first() == ps,
        option_pairs(seq![(a, v)] + ps) == seq![a, v] + option_pairs(ps),
{
    let q = seq![(a, v)] + ps;
    assert(q.drop_first() =~= ps);
    assert(q[0] == (a, v));
}

/// `-r` pairs exclude nothing.
proof fn lemma_only_r_excludes_nothing(ps: Seq<(Seq<char>, Seq<char>)>)
    requires
        only_r(ps),
    ensures
        x_values(ps) == Seq::<Seq<char>>::empty(),
    decreases ps.len(),
{
    lemma_option_words();
    if ps.len() > 0 {
        assert(ps[0].0 == "-r"@);
        assert forall|i: int| 0 <= i < ps.drop_first().len() implies (#[trigger] ps.drop_first()[
            i
        ]).0 == "-r"@ by {
            assert(ps.drop_first()[i] == ps[i + 1]);
        }
        lemma_only_r_excludes_nothing(ps.drop_first());
    }
}

/// Scanning `-x` and `-r` pairs adds the `-x` values to the excluded strings and keeps
/// the last `-r` value as the program; `-x` is taken only while no cookie is set.
proof fn lemma_scan_pairs(
    ps: Seq<(Seq<char>, Seq<char>)>,
    rest: Seq<Seq<char>>,
    cookie: Option<Seq<char>>,
    excluded: Seq<Seq<char>>,
    name: Option<Seq<char>>,
)
    requires
        forall|i: int|
            0 <= i < ps.len() ==> (#[trigger] ps[i]).0 == "-r"@ || (ps[i].0 == "-x"@
                && cookie is None),
    ensures
        scan_options(option_pairs(ps) + rest, cookie, excluded, name) == scan_options(
            rest,
            cookie,
            excluded + x_values(ps),
            named_program(ps, name),
        ),
    decreases ps.len(),
{
    lemma_option_words();
    if ps.len() == 0 {
        assert(option_pairs(ps) + rest =~= rest);
        assert(excluded + x_values(ps) =~= excluded);
    } else {
        let a = option_pairs(ps) + rest;
        let tail = ps.drop_first();
        assert(a =~= seq![ps[0].0, ps[0].1] + (option_pairs(tail) + rest));
        assert(a[0] == ps[0].0);
        assert(a.drop_first()[0] == ps[0].1);
        assert(a.drop_first().drop_first() =~= option_pairs(tail) + rest);
        assert forall|i: int| 0 <= i < tail.len() implies (#[trigger] tail[i]).0 == "-r"@ || (
        tail[i].0 == "-x"@ && cookie is None) by {
            assert(tail[i] == ps[i + 1]);
        }
        if ps[0].0 == "-x"@ {
            lemma_scan_pairs(tail, rest, cookie, excluded.push(ps[0].1), name);
            assert(excluded.push(ps[0].1) + x_values(tail) =~= excluded + x_values(ps));
        } else {
            lemma_scan_pairs(tail, rest, cookie, excluded, Some(ps[0].1));
        }
    }
}

/// Once a cookie is set, an accepted rest of the options is `-r` pairs and `--`, and the
/// cookie stays as it is.
proof fn lemma_scan_shape_with_cookie(
    opts: Seq<Seq<char>>,
    cookie: Option<Seq<char>>,
    excluded: Seq<Seq<char>>,
    name: Option<Seq<char>>,
)
    requires
        cookie is Some,
        scan_options(opts, cookie, excluded, name) is Ok,
        scan_options(opts, cookie, excluded, name)->Ok_0.3.len() > 0,
    ensures
        scan_options(opts, cookie, excluded, name)->Ok_0.0 == cookie,
        exists|ps: Seq<(Seq<char>, Seq<char>)>|
            #![trigger option_pairs(ps)]
            only_r(ps) && option_pairs(ps) + seq!["--"@] + scan_options(
                opts,
                cookie,
                excluded,
                name,
            )->Ok_0.3 == opts,
    decreases opts.len(),
{
    lemma_option_words();
    let rsync = scan_options(opts, cookie, excluded, name)->Ok_0.3;
    let a = opts[0];
    let rest = opts.drop_first();
    if a == "--"@ {
        let ps = Seq::<(Seq<char>, Seq<char>)>::empty();
        assert(option_pairs(ps) + seq!["--"@] + rsync =~= opts);
    } else {
        assert(a == "-r"@);
        let t = rest.drop_first();
        assert(scan_options(opts, cookie, excluded, name) == scan_options(
            t,
            cookie,
            excluded,
            Some(rest[0]),
        ));
        assert(opts =~= seq![a, rest[0]] + t);
        lemma_scan_shape_with_cookie(t, cookie, excluded, Some(rest[0]));
        let ps2 = choose|ps: Seq<(Seq<char>, Seq<char>)>|
            #![trigger option_pairs(ps)]
            only_r(ps) && option_pairs(ps) + seq!["--"@] + rsync == t;
        let ps = seq![(a, rest[0])] + ps2;
        lemma_option_pairs_cons(a, rest[0], ps2);
        assert(option_pairs(ps) + seq!["--"@] + rsync =~= seq![a, rest[0]] + (option_pairs(ps2)
            + seq!["--"@] + rsync));
        assert forall|i: int| 0 <= i < ps.len() implies (#[trigger] ps[i]).0 == "-r"@ by {
            if i > 0 {
                assert(ps[i] == ps2[i - 1]);
            }
        }
    }
}

/// An accepted run of options is `-x` and `-r` pairs and `--` when it sets no cookie,
/// and `-r` pairs, `-c v`, `-r` pairs and `--` when it does (and then nothing was
/// excluded before it).
proof fn lemma_scan_shape(opts: Seq<Seq<char>>, excluded: Seq<Seq<char>>, name: Option<Seq<char>>)
    requires
        scan_options(opts, None, excluded, name) is Ok,
        scan_options(opts, None, excluded, name)->Ok_0.3.len() > 0,
    ensures
        ({
            let res = scan_options(opts, None, excluded, name)->Ok_0;
            &&& res.0 is None ==> exists|ps: Seq<(Seq<char>, Seq<char>)>|
                #![trigger option_pairs(ps)]
                only_x_or_r(ps) && option_pairs(ps) + seq!["--"@] + res.3 == opts
            &&& res.0 is Some ==> excluded.len() == 0 && exists|
                before: Seq<(Seq<char>, Seq<char>)>,
                v: Seq<char>,
                after: Seq<(Seq<char>, Seq<char>)>,
            |
                #![trigger options_with_cookie(before, v, after)]
                only_r(before) && only_r(after) && options_with_cookie(before, v, after) + seq![
                    "--"@
                ] + res.3 == opts
        }),
    decreases opts.len(),
{
    lemma_option_words();
    let res = scan_options(opts, None, excluded, name)->Ok_0;
    let rsync = res.3;
    let a = opts[0];
    let rest = opts.drop_first();
    let no_pairs = Seq::<(Seq<char>, Seq<char>)>::empty();
    if a == "--"@ {
        assert(option_pairs(no_pairs) + seq!["--"@] + rsync =~= opts);
        assert(only_x_or_r(no_pairs));
    } else if a == "-c"@ {
        let v = rest[0];
        let t = rest.drop_first();
        assert(scan_options(opts, None, excluded, name) == scan_options(
            t,
            Some(seq!['u'] + v),
            excluded,
            name,
        ));
        assert(opts =~= seq![a, v] + t);
        lemma_scan_shape_with_cookie(t, Some(seq!['u'] + v), excluded, name);
        let after = choose|ps: Seq<(Seq<char>, Seq<char>)>|
            #![trigger option_pairs(ps)]
            only_r(ps) && option_pairs(ps) + seq!["--"@] + rsync == t;
        assert(option_pairs(no_pairs) =~= Seq::<Seq<char>>::empty());
        assert(options_with_cookie(no_pairs, v, after) + seq!["--"@] + rsync =~= seq![a, v] + (
        option_pairs(after) + seq!["--"@] + rsync));
        assert(only_r(no_pairs));
    } else {
        assert(a == "-x"@ || a == "-r"@);
        let val = rest[0];
        let t = rest.drop_first();
        let excluded2 = if a == "-x"@ {
            excluded.push(val)
        } else {
            excluded
        };
        let name2 = if a == "-x"@ {
            name
        } else {
            Some(val)
        };
        assert(scan_options(opts, None, excluded, name) == scan_options(t, None, excluded2, name2));
        assert(opts =~= seq![a, val] + t);
        lemma_scan_shape(t, excluded2, name2);
        if res.0 is None {
            let ps2 = choose|ps: Seq<(Seq<char>, Seq<char>)>|
                #![trigger option_pairs(ps)]
                only_x_or_r(ps) && option_pairs(ps) + seq!["--"@] + rsync == t;
            let ps = seq![(a, val)] + ps2;
            lemma_option_pairs_cons(a, val, ps2);
            assert(option_pairs(ps) + seq!["--"@] + rsync =~= seq![a, val] + (option_pairs(ps2)
                + seq!["--"@] + rsync));
            assert forall|i: int| 0 <= i < ps.len() implies (#[trigger] ps[i]).0 == "-x"@ || ps[
                i
            ].0 == "-r"@ by {
                if i > 0 {
                    assert(ps[i] == ps2[i - 1]);
                }
            }
        } else {
            assert(excluded2.len() == 0);
            assert(a == "-r"@);
            let (before2, v, after) = choose|
                before: Seq<(Seq<char>, Seq<char>)>,
                v: Seq<char>,
                after: Seq<(Seq<char>, Seq<char>)>,
            |
                #![trigger options_with_cookie(before, v, after)]
                only_r(before) && only_r(after) && options_with_cookie(before, v, after) + seq![
                    "--"@
                ] + rsync == t;
            let before = seq![(a, val)] + before2;
            lemma_option_pairs_cons(a, val, before2);
            assert(options_with_cookie(before, v, after) + seq!["--"@] + rsync =~= seq![a, val] + (
            options_with_cookie(before2, v, after) + seq!["--"@] + rsync));
            assert forall|i: int| 0 <= i < before.len() implies (#[trigger] before[i]).0
                == "-r"@ by {
                if i > 0 {
                    assert(before[i] == before2[i - 1]);
                }
            }
        }
    }
}

/// With `-c v` among the options, beside any number of `-r` options before and after
/// it, a command line is accepted exactly when rsync's arguments are present and
/// unobjectionable; its cookie is `u` followed by `v`, and the program run is the one
/// the last `-r` names. (Any other option beside `-c` refuses the command line.)
pub proof fn law_config_with_user_cookie(
    p: Seq<char>,
    before: Seq<(Seq<char>, Seq<char>)>,
    v: Seq<char>,
    after: Seq<(Seq<char>, Seq<char>)>,
    r: Seq<Seq<char>>,
)
    requires
        only_r(before),
        only_r(after),
        r.len() > 0,
        first_violation(r) is None,
    ensures
        config_spec(command_with_cookie(p, before, v, after, r)) == Ok::<
            (Seq<char>, Seq<Seq<char>>),
            ConfigError,
        >((seq!['u'] + v, r)),
        has_user_cookie(command_with_cookie(p, before, v, after, r)),
        rsync_name_spec(command_with_cookie(p, before, v, after, r)) == program_or_default(
            named_program(after, named_program(before, None)),
        ),
{
    lemma_option_words();
    let empty = Seq::<Seq<char>>::empty();
    let args = command_with_cookie(p, before, v, after, r);
    let tail = option_pairs(after) + (seq!["--"@] + r);
    let mid = seq!["-c"@, v] + tail;
    assert(options_of(args) =~= option_pairs(before) + mid);
    lemma_scan_pairs(before, mid, None, empty, None);
    lemma_only_r_excludes_nothing(before);
    assert(empty + x_values(before) =~= empty);
    let n1 = named_program(before, None);
    assert(mid[0] == "-c"@);
    assert(mid.drop_first()[0] == v);
    assert(mid.drop_first().drop_first() =~= tail);
    let c = Some(seq!['u'] + v);
    assert(scan_options(mid, None, empty, n1) == scan_options(tail, c, empty, n1));
    lemma_scan_pairs(after, seq!["--"@] + r, c, empty, n1);
    lemma_only_r_excludes_nothing(after);
    let last = seq!["--"@] + r;
    assert(last[0] == "--"@);
    assert(last.drop_first() =~= r);
}

/// With only `-x` and `-r` options, a command line is accepted exactly when rsync's
/// arguments are present and unobjectionable; its cookie is `h` followed by the FNV-1a
/// hash of those arguments that are none of the `-x` values, and the program run is
/// the one the last `-r` names.
pub proof fn law_config_without_user_cookie(
    p: Seq<char>,
    ps: Seq<(Seq<char>, Seq<char>)>,
    r: Seq<Seq<char>>,
)
    requires
        only_x_or_r(ps),
        r.len() > 0,
        first_violation(r) is None,
    ensures
        config_spec(command_without_cookie(p, ps, r)) == Ok::<
            (Seq<char>, Seq<Seq<char>>),
            ConfigError,
        >((seq!['h'] + decimal(fnv1a_spec(without(r, x_values(ps))) as nat), r)),
        !has_user_cookie(command_without_cookie(p, ps, r)),
        rsync_name_spec(command_without_cookie(p, ps, r)) == program_or_default(
            named_program(ps, None),
        ),
{
    lemma_option_words();
    let empty = Seq::<Seq<char>>::empty();
    let args = command_without_cookie(p, ps, r);
    let last = seq!["--"@] + r;
    assert(options_of(args) =~= option_pairs(ps) + last);
    lemma_scan_pairs(ps, last, None, empty, None);
    assert(empty + x_values(ps) =~= x_values(ps));
    assert(last[0] == "--"@);
    assert(last.drop_first() =~= r);
}

/// Every accepted command line has one of those two shapes: `-c v` beside `-r`
/// options only, or `-x` and `-r` options only; then `--` and rsync's arguments.
pub proof fn law_accepted_command_shapes(args: Seq<Seq<char>>)
    requires
        config_spec(args) is Ok,
    ensures
        has_user_cookie(args) ==> exists|
            before: Seq<(Seq<char>, Seq<char>)>,
            v: Seq<char>,
            after: Seq<(Seq<char>, Seq<char>)>,
            r: Seq<Seq<char>>,
        |
            #![trigger command_with_cookie(args[0], before, v, after, r)]
            only_r(before) && only_r(after) && command_with_cookie(args[0], before, v, after, r)
                == args,
        !has_user_cookie(args) ==> exists|ps: Seq<(Seq<char>, Seq<char>)>, r: Seq<Seq<char>>|
            #![trigger command_without_cookie(args[0], ps, r)]
            only_x_or_r(ps) && command_without_cookie(args[0], ps, r) == args,
{
    let empty = Seq::<Seq<char>>::empty();
    let opts = options_of(args);
    assert(args.len() > 0);
    assert(opts == args.drop_first());
    assert(args =~= seq![args[0]] + opts);
    lemma_scan_shape(opts, empty, None);
    let res = scan_options(opts, None, empty, None)->Ok_0;
    let r = res.3;
    if has_user_cookie(args) {
        let (before, v, after) = choose|
            before: Seq<(Seq<char>, Seq<char>)>,
            v: Seq<char>,
            after: Seq<(Seq<char>, Seq<char>)>,
        |
            #![trigger options_with_cookie(before, v, after)]
            only_r(before) && only_r(after) && options_with_cookie(before, v, after) + seq!["--"@]
                + r == opts;
        assert(command_with_cookie(args[0], before, v, after, r) =~= seq![args[0]] + (
        options_with_cookie(before, v, after) + seq!["--"@] + r));
    } else {
        let ps = choose|ps: Seq<(Seq<char>, Seq<char>)>|
            #![trigger option_pairs(ps)]
            only_x_or_r(ps) && option_pairs(ps) + seq!["--"@] + r == opts;
        assert(command_without_cookie(args[0], ps, r) =~= seq![args[0]] + (option_pairs(ps)
            + seq!["--"@] + r));
    }
}

/// User cookies can't clash with the cookies rsyncp forms itself, wherever `-c` stands
/// among the options: a command line with `-c v` has the cookie `u` followed by `v`,
/// one without `-c` has `h` followed by digits, and the two never share a cookie.
pub proof fn law_user_cookie_never_clashes_with_formed(
    p1: Seq<char>,
    before: Seq<(Seq<char>, Seq<char>)>,
    v: Seq<char>,
    after: Seq<(Seq<char>, Seq<char>)>,
    r1: Seq<Seq<char>>,
    p2: Seq<char>,
    ps: Seq<(Seq<char>, Seq<char>)>,
    r2: Seq<Seq<char>>,
)
    requires
        only_r(before),
        only_r(after),
        r1.len() > 0,
        first_violation(r1) is None,
        only_x_or_r(ps),
        r2.len() > 0,
        first_violation(r2) is None,
    ensures
        config_spec(command_with_cookie(p1, before, v, after, r1))->Ok_0.0 == seq!['u'] + v,
        config_spec(command_without_cookie(p2, ps, r2))->Ok_0.0[0] == 'h',
        config_spec(command_with_cookie(p1, before, v, after, r1))->Ok_0.0 != config_spec(
            command_without_cookie(p2, ps, r2),
        )->Ok_0.0,
{
    law_config_with_user_cookie(p1, before, v, after, r1);
    law_config_without_user_cookie(p2, ps, r2);
    let c1 = config_spec(command_with_cookie(p1, before, v, after, r1))->Ok_0.0;
    let c2 = config_spec(command_without_cookie(p2, ps, r2))->Ok_0.0;
    assert(c1[0] == 'u');
    assert(c2[0] == 'h');
}

/// The first argument with an objection, if any.
proof fn lemma_first_violation_some(args: Seq<Seq<char>>)
    ensures
        first_violation(args) is Some <==> exists|i: int|
            0 <= i < args.len() && (#[trigger] arg_violation(args[i])) is Some,
    decreases args.len(),
{
    if args.len() > 0 {
        lemma_first_violation_some(args.drop_first());
        if first_violation(args) is None {
            lemma_first_violation_none(args);
        } else if arg_violation(args[0]) is None {
            let i = choose|i: int|
                0 <= i < args.drop_first().len() && (#[trigger] arg_violation(
                    args.drop_first()[i],
                )) is Some;
            assert(args[i + 1] == args.drop_first()[i]);
        }
    }
}

/// rsync's arguments are refused exactly when some of them has an objection (starts
/// with `--human-readable`, `--info=`, `--outbuf`, `--out-format` or
/// `--itemize-changes`, or is a single-dash cluster holding `h` or `i`); the objection
/// reported is that of the first such argument.
pub proof fn law_refused_iff_objection(p: Seq<char>, r: Seq<Seq<char>>)
    requires
        r.len() > 0,
    ensures
        config_spec(seq![p, "--"@] + r) is Err <==> exists|i: int|
            0 <= i < r.len() && (#[trigger] arg_violation(r[i])) is Some,
        config_spec(seq![p, "--"@] + r) matches Err(e) ==> first_violation(r) == Some(e),
{
    lemma_option_words();
    let o = options_of(seq![p, "--"@] + r);
    assert(o[0] == "--"@);
    assert(o.drop_first() =~= r);
    lemma_first_violation_some(r);
}

/// An rsync argument that does not begin with `-` (a source or destination operand)
/// has no objection, whatever characters it holds.
pub proof fn law_operand_has_no_objection(x: Seq<char>)
    requires
        x.len() == 0 || x[0] != '-',
    ensures
        arg_violation(x) is None,
{
    reveal_strlit("--human-readable");
    reveal_strlit("--info=");
    reveal_strlit("--outbuf");
    reveal_strlit("--out-format");
    reveal_strlit("--itemize-changes");
    reveal_strlit("-");
    if x.len() > 0 {
        assert(x.subrange(0, 1)[0] == x[0]);
        assert(!starts_with(x, "-"@));
        assert(x.len() < 16 || x.subrange(0, 16)[0] == x[0]);
        assert(x.len() < 7 || x.subrange(0, 7)[0] == x[0]);
        assert(x.len() < 8 || x.subrange(0, 8)[0] == x[0]);
        assert(x.len() < 12 || x.subrange(0, 12)[0] == x[0]);
        assert(x.len() < 17 || x.subrange(0, 17)[0] == x[0]);
    }
}

/// `rsyncp -- <operands>`, with no operand beginning with `-`, is accepted whatever the
/// operands hold: rsync gets them all, and the cookie is `h` and their FNV-1a hash.
pub proof fn law_operands_accepted(p: Seq<char>, r: Seq<Seq<char>>)
    requires
        r.len() > 0,
        forall|i: int| 0 <= i < r.len() ==> (#[trigger] r[i]).len() == 0 || r[i][0] != '-',
    ensures
        config_spec(seq![p, "--"@] + r) == Ok::<(Seq<char>, Seq<Seq<char>>), ConfigError>(
            (seq!['h'] + decimal(fnv1a_spec(r) as nat), r),
        ),
{
    assert forall|i: int| 0 <= i < r.len() implies (#[trigger] arg_violation(r[i])) is None by {
        law_operand_has_no_objection(r[i]);
    }
    lemma_first_violation_some(r);
    let none = Seq::<(Seq<char>, Seq<char>)>::empty();
    law_config_without_user_cookie(p, none, r);
    assert(command_without_cookie(p, none, r) =~= seq![p, "--"@] + r);
    assert(x_values(none) =~= Seq::<Seq<char>>::empty());
    lemma_without_nothing(r);
}

/// An accepted command line hands rsync no argument that rsyncp objects to.
pub proof fn law_accepted_args_are_allowed(args: Seq<Seq<char>>)
    requires
        config_spec(args) is Ok,
    ensures
        forall|i: int|
            0 <= i < config_spec(args)->Ok_0.1.len() ==> arg_violation(
                #[trigger] config_spec(args)->Ok_0.1[i],
            ) is None,
{
    let r = config_spec(args)->Ok_0.1;
    lemma_first_violation_none(r);
}

// ---------------------------------------------------------------------------
// Implementation
// ---------------------------------------------------------------------------

/// The objection to one rsync argument.
fn arg_violation_exec(x: &Vec<char>) -> (r: Option<ConfigError>)
    ensures
        r == arg_violation(x@),
{
    let short = starts_with_exec(x, "-") && !starts_with_exec(x, "--");
    if starts_with_exec(x, "--human-readable") || (short && find_char_exec(x, 'h').is_some()) {
        Some(ConfigError::HumanReadable)
    } else if starts_with_exec(x, "--info=") {
        Some(ConfigError::Info)
    } else if starts_with_exec(x, "--outbuf") {
        Some(ConfigError::Outbuf)
    } else if starts_with_exec(x, "--out-format") {
        Some(ConfigError::OutFormat)
    } else if starts_with_exec(x, "--itemize-changes") || (short && find_char_exec(
        x,
        'i',
    ).is_some()) {
        Some(ConfigError::ItemizeChanges)
    } else {
        None
    }
}

/// `items` holds a string equal to `x`.
fn holds(items: &Vec<String>, x: &String) -> (b: bool)
    ensures
        b == items.deep_view().contains(x@),
{
    let mut i: usize = 0;
    while i < items.len()
        invariant
            i <= items@.len(),
            forall|j: int| 0 <= j < i ==> items.deep_view()[j] != x@,
        decreases items@.len() - i,
    {
        if items[i] == *x {
            assert(items.deep_view()[i as int] == x@);
            return true;
        }
        i = i + 1;
    }
    proof {
        if items.deep_view().contains(x@) {
            let j = choose|j: int| 0 <= j < items.deep_view().len() && items.deep_view()[j] == x@;
            assert(items.deep_view()[j] != x@);
        }
    }
    false
}

/// FNV-1a over the bytes of `items`, one string after another.
pub fn fnv1a(items: &Vec<String>) -> (hash: u64)
    ensures
        hash == fnv1a_spec(items.deep_view()),
{
    let mut hash: u64 = 0xCBF29CE484222325;
    let mut i: usize = 0;
    while i < items.len()
        invariant
            i <= items@.len(),
            hash == fnv_bytes(fnv_offset(), utf8_of_all(items.deep_view().subrange(0, i as int))),
        decreases items@.len() - i,
    {
        let bytes = items[i].as_str().as_bytes();
        let ghost before = utf8_of_all(items.deep_view().subrange(0, i as int));
        let mut j: usize = 0;
        while j < bytes.len()
            invariant
                j <= bytes@.len(),
                hash == fnv_bytes(fnv_offset(), before + bytes@.subrange(0, j as int)),
            decreases bytes@.len() - j,
        {
            let ghost prev = before + bytes@.subrange(0, j as int);
            let ghost next = before + bytes@.subrange(0, j + 1);
            assert(next.drop_last() =~= prev);
            hash = (hash ^ (bytes[j] as u64)).wrapping_mul(0x100000001B3);
            j = j + 1;
        }
        proof {
            let upto = items.deep_view().subrange(0, i + 1);
            assert(upto.drop_last() =~= items.deep_view().subrange(0, i as int));
            assert(upto.last() == items[i as int]@);
            assert(bytes@.subrange(0, bytes@.len() as int) =~= bytes@);
        }
        i = i + 1;
    }
    assert(items.deep_view().subrange(0, items@.len() as int) =~= items.deep_view());
    hash
}

impl Config {
    /// Reads the command line `args` (program name first). `show_progress` says whether
    /// the status line is drawn.
    pub fn new(args: Vec<String>, show_progress: bool) -> (r: Result<Config, ConfigError>)
        ensures
            match (r, config_spec(args.deep_view())) {
                (Ok(cfg), Ok((cookie, rsync))) => cfg.cookie@ == cookie && cfg.rsync_args.deep_view()
                    == rsync && cfg.rsync_name@ == rsync_name_spec(args.deep_view())
                    && cfg.show_progress == show_progress,
                (Err(e), Err(e2)) => e == e2,
                _ => false,
            },
    {
        let ghost opts = options_of(args.deep_view());
        let mut user: Option<String> = None;
        let mut excluded: Vec<String> = Vec::new();
        let mut rsync_args: Vec<String> = Vec::new();
        let mut name: Option<String> = None;
        let n = args.len();
        let mut i: usize = if n == 0 {
            0
        } else {
            1
        };
        proof {
            assert(args.deep_view().subrange(i as int, n as int) =~= opts);
            assert(excluded.deep_view() =~= Seq::<Seq<char>>::empty());
        }
        let mut done = false;
        while i < n && !done
            invariant
                n == args@.len(),
                i <= n,
                opts == options_of(args.deep_view()),
                !done ==> scan_options(opts, None, Seq::empty(), None) == scan_options(
                    args.deep_view().subrange(i as int, n as int),
                    opt_view(user),
                    excluded.deep_view(),
                    opt_view(name),
                ),
                done ==> scan_options(opts, None, Seq::empty(), None) == Ok::<
                    (Option<Seq<char>>, Seq<Seq<char>>, Option<Seq<char>>, Seq<Seq<char>>),
                    ConfigError,
                >(
                    (
                        opt_view(user),
                        excluded.deep_view(),
                        opt_view(name),
                        rsync_args.deep_view(),
                    ),
                ),
                !done ==> rsync_args@.len() == 0,
            decreases n - i,
        {
            let ghost cur = args.deep_view().subrange(i as int, n as int);
            assert(cur[0] == args[i as int]@);
            assert(cur.drop_first() =~= args.deep_view().subrange(i + 1, n as int));
            let a = to_chars(args[i].as_str());
            if equals_exec(&a, "--") {
                let mut j = i + 1;
                while j < n
                    invariant
                        i < n == args@.len(),
                        i + 1 <= j <= n,
                        rsync_args.deep_view() =~= args.deep_view().subrange(i + 1, j as int),
                    decreases n - j,
                {
                    let ghost before = rsync_args.deep_view();
                    rsync_args.push(args[j].clone());
                    assert(rsync_args.deep_view() =~= before.push(args[j as int]@));
                    j = j + 1;
                }
                i = n;
                done = true;
            } else if equals_exec(&a, "-c") {
                if user.is_some() || excluded.len() > 0 || i + 1 >= n {
                    return Err(ConfigError::Usage(1));
                }
                assert(cur.drop_first()[0] == args[i + 1]@);
                assert(cur.drop_first().drop_first() =~= args.deep_view().subrange(
                    i + 2,
                    n as int,
                ));
                let mut c = String::new();
                push_char(&mut c, 'u');
                push_str(&mut c, args[i + 1].as_str());
                assert(c@ =~= seq!['u'] + args[i + 1]@);
                user = Some(c);
                i = i + 2;
            } else if equals_exec(&a, "-h") {
                return Err(ConfigError::Usage(0));
            } else if equals_exec(&a, "-i") {
                return Err(ConfigError::Version);
            } else if equals_exec(&a, "-x") {
                if user.is_some() || i + 1 >= n {
                    return Err(ConfigError::Usage(1));
                }
                assert(cur.drop_first()[0] == args[i + 1]@);
                assert(cur.drop_first().drop_first() =~= args.deep_view().subrange(
                    i + 2,
                    n as int,
                ));
                let ghost ex_before = excluded.deep_view();
                excluded.push(args[i + 1].clone());
                assert(excluded.deep_view() =~= ex_before.push(args[i + 1]@));
                i = i + 2;
            } else if equals_exec(&a, "-r") {
                if i + 1 >= n {
                    return Err(ConfigError::Usage(1));
                }
                assert(cur.drop_first()[0] == args[i + 1]@);
                assert(cur.drop_first().drop_first() =~= args.deep_view().subrange(
                    i + 2,
                    n as int,
                ));
                name = Some(args[i + 1].clone());
                i = i + 2;
            } else {
                return Err(ConfigError::Usage(1));
            }
        }
        proof {
            if !done {
                assert(args.deep_view().subrange(i as int, n as int) =~= Seq::<Seq<char>>::empty());
            }
        }
        if rsync_args.len() == 0 {
            return Err(ConfigError::Usage(1));
        }
        // Refuse arguments that would disturb the output rsyncp reads.
        let mut k: usize = 0;
        assert(rsync_args.deep_view().subrange(0, rsync_args@.len() as int)
            =~= rsync_args.deep_view());
        while k < rsync_args.len()
            invariant
                scan_options(opts, None, Seq::empty(), None) == Ok::<
                    (Option<Seq<char>>, Seq<Seq<char>>, Option<Seq<char>>, Seq<Seq<char>>),
                    ConfigError,
                >((opt_view(user), excluded.deep_view(), opt_view(name), rsync_args.deep_view())),
                opts == options_of(args.deep_view()),
                rsync_args@.len() > 0,
                k <= rsync_args@.len(),
                first_violation(rsync_args.deep_view()) == first_violation(
                    rsync_args.deep_view().subrange(k as int, rsync_args@.len() as int),
                ),
            decreases rsync_args@.len() - k,
        {
            let ghost rest = rsync_args.deep_view().subrange(k as int, rsync_args@.len() as int);
            assert(rest[0] == rsync_args[k as int]@);
            assert(rest.drop_first() =~= rsync_args.deep_view().subrange(
                k + 1,
                rsync_args@.len() as int,
            ));
            let x = to_chars(rsync_args[k].as_str());
            if let Some(e) = arg_violation_exec(&x) {
                return Err(e);
            }
            k = k + 1;
        }
        let cookie = match user {
            Some(c) => c,
            None => {
                let mut kept: Vec<String> = Vec::new();
                let mut j: usize = 0;
                while j < rsync_args.len()
                    invariant
                        first_violation(rsync_args.deep_view()) is None,
                        scan_options(opts, None, Seq::empty(), None) == Ok::<
                            (Option<Seq<char>>, Seq<Seq<char>>, Option<Seq<char>>, Seq<Seq<char>>),
                            ConfigError,
                        >((opt_view(user), excluded.deep_view(), opt_view(name), rsync_args.deep_view())),
                        opts == options_of(args.deep_view()),
                        rsync_args@.len() > 0,
                        j <= rsync_args@.len(),
                        kept.deep_view() =~= without(
                            rsync_args.deep_view().subrange(0, j as int),
                            excluded.deep_view(),
                        ),
                    decreases rsync_args@.len() - j,
                {
                    let ghost pre = rsync_args.deep_view().subrange(0, j + 1);
                    assert(pre.drop_last() =~= rsync_args.deep_view().subrange(0, j as int));
                    assert(pre.last() == rsync_args[j as int]@);
                    if !holds(&excluded, &rsync_args[j]) {
                        let ghost before = kept.deep_view();
                        kept.push(rsync_args[j].clone());
                        assert(kept.deep_view() =~= before.push(rsync_args[j as int]@));
                    }
                    j = j + 1;
                }
                assert(rsync_args.deep_view().subrange(0, rsync_args@.len() as int)
                    =~= rsync_args.deep_view());
                let mut c = String::new();
                push_char(&mut c, 'h');
                push_decimal(&mut c, fnv1a(&kept));
                c
            },
        };
        let rsync_name = match name {
            Some(r) => r,
            None => {
                let mut r = String::new();
                push_str(&mut r, "rsync");
                r
            },
        };
        Ok(Config { cookie, rsync_name, rsync_args, show_progress })
    }
}

} // verus!
