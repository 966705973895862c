use vstd::prelude::*;

use crate::config::WebConfig;
use crate::config::AppConfig;
use crate::config::command_line;
use crate::config::path_join;
use crate::config::path_parent;
use crate::config::plain_name;
use crate::config::clear_parent;
use crate::config::joinable;
use crate::config::joined_with_separator;
use crate::config::parent_part;
use crate::config::resolve_relative_path;
use crate::text::join_strings;
use crate::config::is_white_space;
use crate::config::white_space;
use crate::process::ProcessInfo;
use crate::process::status_text;
use crate::process::LogEntry;
use crate::process::format_utc;
use crate::process::utc_text;
use crate::process::LogStream;
use crate::api::stream_tag;
use crate::strmap::StrMap;
use crate::text::chars_of;
use crate::text::decimal;
use crate::text::push_decimal;
use crate::text::push_signed_decimal;
use crate::text::signed_decimal;
use crate::text::str_eq;
use crate::text::string_from_chars;
use crate::text::views;

verus! {

// ── Where the client connects ─────────────────────────────────

/// The address a client uses to reach the web service: the configured
/// address, `127.0.0.1` for none or for the wildcard `0.0.0.0`, and the
/// configured port or 9090.
pub open spec fn connect_url(web: WebConfig) -> Seq<char> {
    let addr = match web.addr {
        Some(a) => if a@ == "0.0.0.0"@ {
            "127.0.0.1"@
        } else {
            a@
        },
        None => "127.0.0.1"@,
    };
    let port: u16 = match web.port {
        Some(p) => p,
        None => 9090,
    };
    "http://"@ + addr + ":"@ + decimal(port as nat)
}

/// The URL of the web service described by `web`.
pub fn server_url(web: &WebConfig) -> (r: String)
    ensures
        r@ == connect_url(*web),
{
    let mut r = String::from_str("http://");
    match &web.addr {
        Some(a) => {
            if str_eq(a.as_str(), "0.0.0.0") {
                r.append("127.0.0.1");
            } else {
                r.append(a.as_str());
            }
        },
        None => r.append("127.0.0.1"),
    }
    r.append(":");
    let port: u16 = match web.port {
        Some(p) => p,
        None => 9090,
    };
    push_decimal(&mut r, port as u64);
    r
}

// ── Web assets ────────────────────────────────────────────────

/// The directories searched for the web front end, in order.
pub open spec fn web_dir_candidates() -> Seq<Seq<char>> {
    seq!["web"@, "../web"@, "../../web"@]
}

/// The candidates of `web_dir_candidates`, for the caller to look at.
pub fn web_dirs() -> (r: Vec<String>)
    ensures
        views(r@) == web_dir_candidates(),
{
    let r = vec![String::from_str("web"), String::from_str("../web"), String::from_str("../../web")];
    assert(views(r@) =~= web_dir_candidates());
    r
}

/// The first candidate directory that holds the front end, given for each
/// candidate whether it exists and holds an `index.html`.
pub fn find_web_dir(usable: &[bool]) -> (r: Option<String>)
    requires
        usable@.len() == web_dir_candidates().len(),
    ensures
        match r {
            Some(d) => exists|i: int|
                0 <= i < 3 && #[trigger] usable@[i] && d@ == web_dir_candidates()[i] && forall|j: int|
                    0 <= j < i ==> !usable@[j],
            None => forall|i: int| 0 <= i < 3 ==> !usable@[i],
        },
{
    let dirs = web_dirs();
    for i in 0..3
        invariant
            usable@.len() == 3,
            dirs@.len() == 3,
            views(dirs@) == web_dir_candidates(),
            forall|j: int| 0 <= j < i ==> !usable@[j],
    {
        if usable[i] {
            let d = dirs[i].clone();
            assert(views(dirs@)[i as int] == dirs@[i as int]@);
            assert(d@ == web_dir_candidates()[i as int]);
            return Some(d);
        }
    }
    None
}

// ── Daemon start-up ───────────────────────────────────────────

/// The API key in force: the one given on the command line, else the
/// configured one, else the one from the environment.
pub fn pick_api_key(cli: Option<String>, configured: Option<String>, env: Option<String>) -> (r:
    Option<String>)
    ensures
        r == if cli is Some {
            cli
        } else if configured is Some {
            configured
        } else {
            env
        },
{
    match cli {
        Some(k) => Some(k),
        None => match configured {
            Some(k) => Some(k),
            None => env,
        },
    }
}

/// `s` without leading and trailing white space, as `str::trim` gives it.
pub open spec fn trimmed(s: Seq<char>) -> Seq<char>
    decreases s.len(),
{
    if s.len() == 0 {
        s
    } else if is_white_space(s[0]) {
        trimmed(s.drop_first())
    } else if is_white_space(s.last()) {
        trimmed(s.drop_last())
    } else {
        s
    }
}

/// The value of a decimal digit character.
pub open spec fn digit_value(c: char) -> int {
    (c as u32) - ('0' as u32)
}

/// `c` is one of `0`..`9`.
pub open spec fn is_digit(c: char) -> bool {
    '0' <= c && c <= '9'
}

/// The number written by the digits `s`.
pub open spec fn digits_value(s: Seq<char>) -> int
    decreases s.len(),
{
    if s.len() == 0 {
        0
    } else {
        digits_value(s.drop_last()) * 10 + digit_value(s.last())
    }
}

/// `s` without a leading `+`.
pub open spec fn unsigned_part(s: Seq<char>) -> Seq<char> {
    if s.len() > 0 && s[0] == '+' {
        s.drop_first()
    } else {
        s
    }
}

/// Every character of `s` is a decimal digit.
pub open spec fn all_digits(s: Seq<char>) -> bool {
    forall|i: int| 0 <= i < s.len() ==> is_digit(#[trigger] s[i])
}

/// The `u32` that `str::parse::<u32>` reads from `s`: an optional `+`, then
/// one or more decimal digits whose value fits.
pub open spec fn parsed_u32(s: Seq<char>) -> Option<u32> {
    let digits = unsigned_part(s);
    if digits.len() > 0 && all_digits(digits) && digits_value(digits) <= u32::MAX {
        Some(digits_value(digits) as u32)
    } else {
        None
    }
}

proof fn lemma_digits_grow(s: Seq<char>, c: char)
    requires
        is_digit(c),
        forall|i: int| 0 <= i < s.len() ==> is_digit(#[trigger] s[i]),
    ensures
        digits_value(s.push(c)) >= digits_value(s),
        digits_value(s) >= 0,
    decreases s.len(),
{
    assert(s.push(c).drop_last() =~= s);
    if s.len() > 0 {
        lemma_digits_grow(s.drop_last(), s.last());
    }
}

fn trim_chars(s: &str) -> (r: Vec<char>)
    ensures
        r@ == trimmed(s@),
{
    let cs = chars_of(s);
    let mut lo: usize = 0;
    let mut hi: usize = cs.len();
    assert(cs@.subrange(0, cs@.len() as int) =~= s@);
    while lo < hi && white_space(cs[lo])
        invariant
            cs@ == s@,
            lo <= hi <= cs@.len(),
            hi == cs@.len(),
            trimmed(s@) == trimmed(cs@.subrange(lo as int, hi as int)),
        decreases hi - lo,
    {
        assert(cs@.subrange(lo as int, hi as int).drop_first() =~= cs@.subrange(lo + 1, hi as int));
        lo = lo + 1;
    }
    while lo < hi && white_space(cs[hi - 1])
        invariant
            cs@ == s@,
            lo <= hi <= cs@.len(),
            lo < hi ==> !is_white_space(cs@[lo as int]),
            trimmed(s@) == trimmed(cs@.subrange(lo as int, hi as int)),
        decreases hi - lo,
    {
        assert(cs@.subrange(lo as int, hi as int).drop_last() =~= cs@.subrange(lo as int, hi - 1));
        hi = hi - 1;
    }
    let mut out: Vec<char> = Vec::new();
    let mut k: usize = lo;
    while k < hi
        invariant
            cs@ == s@,
            lo <= k <= hi <= cs@.len(),
            out@ == cs@.subrange(lo as int, k as int),
        decreases hi - k,
    {
        out.push(cs[k]);
        assert(cs@.subrange(lo as int, k + 1) =~= cs@.subrange(lo as int, k as int).push(cs@[k as int]));
        k = k + 1;
    }
    proof {
        let t = cs@.subrange(lo as int, hi as int);
        if t.len() > 0 {
            assert(t[0] == cs@[lo as int]);
            assert(t.last() == cs@[hi - 1]);
        }
    }
    out
}

/// Reads a `u32` as `str::parse::<u32>` does.
pub fn parse_u32(s: &[char]) -> (r: Option<u32>)
    ensures
        r == parsed_u32(s@),
{
    let mut start: usize = 0;
    if s.len() > 0 && s[0] == '+' {
        start = 1;
    }
    let ghost digits = unsigned_part(s@);
    assert(digits =~= s@.subrange(start as int, s@.len() as int));
    if start >= s.len() {
        return None;
    }
    let mut value: u64 = 0;
    let mut k: usize = start;
    while k < s.len()
        invariant
            start <= k <= s@.len(),
            digits == s@.subrange(start as int, s@.len() as int),
            digits == unsigned_part(s@),
            forall|i: int| start <= i < k ==> is_digit(#[trigger] s@[i]),
            value == digits_value(s@.subrange(start as int, k as int)),
            value <= u32::MAX,
        decreases s@.len() - k,
    {
        let c = s[k];
        if !('0' <= c && c <= '9') {
            assert(digits[k - start] == c);
            assert(!is_digit(digits[k - start]));
            return None;
        }
        let ghost pre = s@.subrange(start as int, k as int);
        assert(s@.subrange(start as int, k + 1) =~= pre.push(c));
        assert(s@.subrange(start as int, k + 1).drop_last() =~= pre);
        let d = (c as u32 - '0' as u32) as u64;
        value = value * 10 + d;
        if value > 0xffff_ffff {
            proof {
                let m = (k + 1 - start) as int;
                assert forall|i: int| 0 <= i < m implies is_digit(#[trigger] digits[i]) by {
                    assert(digits[i] == s@[start + i]);
                }
                lemma_prefix_value_bound(digits, m);
                assert(digits.take(m) =~= s@.subrange(start as int, k + 1));
            }
            return None;
        }
        k = k + 1;
    }
    proof {
        assert forall|i: int| 0 <= i < digits.len() implies is_digit(#[trigger] digits[i]) by {
            assert(digits[i] == s@[start + i]);
        }
        assert(s@.subrange(start as int, s@.len() as int) == digits);
    }
    Some(value as u32)
}

/// A longer run of digits never reads smaller than its prefix.
proof fn lemma_prefix_value_bound(digits: Seq<char>, k: int)
    requires
        0 <= k <= digits.len(),
        forall|i: int| 0 <= i < k ==> is_digit(#[trigger] digits[i]),
    ensures
        all_digits(digits) ==> digits_value(digits) >= digits_value(digits.take(k)),
    decreases digits.len() - k,
{
    if k < digits.len() && all_digits(digits) {
        lemma_prefix_value_bound(digits, k + 1);
        assert(digits.take(k + 1) =~= digits.take(k).push(digits[k]));
        lemma_digits_grow(digits.take(k), digits[k]);
    } else if k == digits.len() {
        assert(digits.take(k) =~= digits);
    }
}

/// The process id that a PID file names, when it names one other than
/// `current`: the caller then checks whether that process still runs.
pub fn other_pid(content: &str, current: u32) -> (r: Option<u32>)
    ensures
        r == match parsed_u32(trimmed(content@)) {
            Some(p) => if p != current {
                Some(p)
            } else {
                None
            },
            None => None,
        },
{
    let t = trim_chars(content);
    match parse_u32(t.as_slice()) {
        Some(p) => if p != current {
            Some(p)
        } else {
            None
        },
        None => None,
    }
}


/// Where the PID file goes: the configured file, taken relative to the
/// directory of the configuration file, or `gugu.pid` in that directory.
pub fn pid_path(config: &AppConfig, config_path: &str) -> (r: String)
    ensures
        config.daemon.pid_file is None ==> "gugu.pid"@.is_suffix_of(r@),
        config.daemon.pid_file matches Some(f) ==> (plain_name(f@) ==> f@.is_suffix_of(r@)),
        config_path@.len() == 0 && config.daemon.pid_file is None ==> joined_with_separator(r@, "."@, "gugu.pid"@),
        clear_parent(config_path@) && joinable(parent_part(config_path@)) ==> match config.daemon.pid_file {
            None => joined_with_separator(r@, parent_part(config_path@), "gugu.pid"@),
            Some(f) => plain_name(f@) ==> joined_with_separator(r@, parent_part(config_path@), f@),
        },
{
    let dir = match path_parent(config_path) {
        Some(d) => d,
        None => String::from_str("."),
    };
    match &config.daemon.pid_file {
        Some(f) => resolve_relative_path(f.as_str(), dir.as_str()),
        None => {
            proof {
                reveal_strlit("gugu.pid");
                reveal_strlit(".");
            }
            path_join(dir.as_str(), "gugu.pid")
        },
    }
}

/// The refusal when another daemon holds the PID file.
pub fn pid_conflict_message(pid: u32, path: &str) -> (r: String)
    ensures
        r@ == "另一个守护进程正在运行 (PID: "@ + decimal(pid as nat) + ")，请先停止它或删除 "@ + path@,
{
    let mut r = String::from_str("另一个守护进程正在运行 (PID: ");
    push_decimal(&mut r, pid as u64);
    r.append(")，请先停止它或删除 ");
    r.append(path);
    r
}

/// The configuration file named by the service's start arguments: the
/// argument after the first `-c`, or `gugu.toml`.
pub fn service_config_path(args: &Vec<String>) -> (r: String)
    ensures
        (exists|i: int|
            0 <= i < args@.len() && (#[trigger] args@[i])@ == "-c"@ && (forall|j: int|
                0 <= j < i ==> (#[trigger] args@[j])@ != "-c"@) && r@ == (if i + 1 < args@.len() {
                args@[i + 1]@
            } else {
                "gugu.toml"@
            })) || ((forall|i: int| 0 <= i < args@.len() ==> (#[trigger] args@[i])@ != "-c"@)
            && r@ == "gugu.toml"@),
{
    let n = args.len();
    for i in 0..n
        invariant
            n == args@.len(),
            forall|j: int| 0 <= j < i ==> (#[trigger] args@[j])@ != "-c"@,
    {
        if str_eq(args[i].as_str(), "-c") {
            if i + 1 < n {
                let r = args[i + 1].clone();
                assert(args@[i as int]@ == "-c"@);
                return r;
            } else {
                let r = String::from_str("gugu.toml");
                assert(args@[i as int]@ == "-c"@);
                return r;
            }
        }
    }
    String::from_str("gugu.toml")
}

// ── Tables of the command-line client ─────────────────────────

/// Quotient of `a` by a positive `b`, rounded toward zero, as Rust divides.
pub open spec fn tdiv(a: int, b: int) -> int {
    if a >= 0 {
        a / b
    } else {
        -((-a) / b)
    }
}

/// Remainder that goes with `tdiv`, as Rust's `%` gives it.
pub open spec fn trem(a: int, b: int) -> int {
    a - b * tdiv(a, b)
}

/// A number as `{:02}` prints it: at least two characters, zero-padded.
pub open spec fn two_digits(n: int) -> Seq<char> {
    if 0 <= n < 10 {
        seq!['0'] + decimal(n as nat)
    } else {
        signed_decimal(n)
    }
}

/// A number of seconds as `HH:MM:SS`.
pub open spec fn clock_text(s: int) -> Seq<char> {
    two_digits(tdiv(s, 3600)) + ":"@ + two_digits(tdiv(trem(s, 3600), 60)) + ":"@ + two_digits(
        trem(s, 60),
    )
}

fn push_two_digits(s: &mut String, n: i64)
    ensures
        final(s)@ == old(s)@ + two_digits(n as int),
{
    if 0 <= n && n < 10 {
        crate::text::push_char(s, '0');
        push_decimal(s, n as u64);
        assert(old(s)@.push('0') + decimal(n as nat) =~= old(s)@ + (seq!['0'] + decimal(n as nat)));
    } else {
        push_signed_decimal(s, n);
    }
}

/// Formats an uptime in seconds as `HH:MM:SS`.
pub fn format_uptime(secs: i64) -> (r: String)
    ensures
        r@ == clock_text(secs as int),
{
    let (h, m, s): (i64, i64, i64) = if secs >= 0 {
        let u = secs as u64;
        ((u / 3600) as i64, ((u % 3600) / 60) as i64, (u % 60) as i64)
    } else {
        let u: u64 = if secs == i64::MIN {
            9223372036854775808u64
        } else {
            (-secs) as u64
        };
        assert(u == -(secs as int));
        (-((u / 3600) as i64), -(((u % 3600) / 60) as i64), -((u % 60) as i64))
    };
    assert(h == tdiv(secs as int, 3600));
    assert(m == tdiv(trem(secs as int, 3600), 60));
    assert(s == trem(secs as int, 60));
    let mut r = String::new();
    push_two_digits(&mut r, h);
    r.append(":");
    push_two_digits(&mut r, m);
    r.append(":");
    push_two_digits(&mut r, s);
    r
}

/// The cells of a process's row in the status table: name, status, PID,
/// uptime and restart count.
pub open spec fn status_cells(p: ProcessInfo) -> Seq<Seq<char>> {
    seq![
        p.name@,
        status_text(p.status),
        match p.pid {
            Some(id) => decimal(id as nat),
            None => Seq::empty(),
        },
        match p.uptime_secs {
            Some(s) => clock_text(s as int),
            None => Seq::empty(),
        },
        decimal(p.restart_count as nat),
    ]
}

/// The row of a process in the status table.
pub fn status_row(p: &ProcessInfo) -> (r: Vec<String>)
    ensures
        views(r@) == status_cells(*p),
{
    let mut pid = String::new();
    if let Some(id) = p.pid {
        push_decimal(&mut pid, id as u64);
    }
    let uptime = match p.uptime_secs {
        Some(s) => format_uptime(s),
        None => String::new(),
    };
    let mut restarts = String::new();
    push_decimal(&mut restarts, p.restart_count as u64);
    let r = vec![p.name.clone(), p.status.to_string(), pid, uptime, restarts];
    assert(views(r@) =~= status_cells(*p));
    r
}

/// `是` for yes, `否` for no.
pub open spec fn yes_no(b: bool) -> Seq<char> {
    if b {
        "是"@
    } else {
        "否"@
    }
}

/// The cells of a process's row in the list table: name, command line and
/// whether it starts and restarts on its own.
pub open spec fn list_cells(p: ProcessInfo) -> Seq<Seq<char>> {
    seq![
        p.name@,
        command_line(p.command@, views(p.args@)),
        yes_no(p.auto_start),
        yes_no(p.auto_restart),
    ]
}

/// The row of a process in the list table.
pub fn list_row(p: &ProcessInfo) -> (r: Vec<String>)
    ensures
        views(r@) == list_cells(*p),
{
    let cmd = if p.args.len() == 0 {
        p.command.clone()
    } else {
        let mut c = p.command.clone();
        c.append(" ");
        let joined = join_strings(&p.args, " ");
        c.append(joined.as_str());
        c
    };
    let auto_start = if p.auto_start {
        String::from_str("是")
    } else {
        String::from_str("否")
    };
    let auto_restart = if p.auto_restart {
        String::from_str("是")
    } else {
        String::from_str("否")
    };
    let r = vec![p.name.clone(), cmd, auto_start, auto_restart];
    assert(views(r@) =~= list_cells(*p));
    r
}

/// What the tables show when there is no process.
pub fn empty_table_message() -> (r: String)
    ensures
        r@ == "暂无进程，使用 gugu add 添加进程"@,
{
    String::from_str("暂无进程，使用 gugu add 添加进程")
}


// ── Requests of the command-line client ───────────────────────

/// Where `c` first occurs in `s`.
pub open spec fn first_index(s: Seq<char>, c: char) -> Option<int>
    decreases s.len(),
{
    if s.len() == 0 {
        None
    } else if s[0] == c {
        Some(0)
    } else {
        match first_index(s.drop_first(), c) {
            Some(i) => Some(i + 1),
            None => None,
        }
    }
}

/// `s` cut at its first `=`, as `str::split_once('=')` cuts it.
pub open spec fn split_at_eq(s: Seq<char>) -> Option<(Seq<char>, Seq<char>)> {
    match first_index(s, '=') {
        Some(i) => Some((s.take(i), s.skip(i + 1))),
        None => None,
    }
}

proof fn lemma_first_index(s: Seq<char>, c: char)
    ensures
        match first_index(s, c) {
            Some(i) => 0 <= i < s.len() && s[i] == c && forall|j: int| 0 <= j < i ==> s[j] != c,
            None => forall|j: int| 0 <= j < s.len() ==> s[j] != c,
        },
    decreases s.len(),
{
    if s.len() > 0 && s[0] != c {
        lemma_first_index(s.drop_first(), c);
        match first_index(s.drop_first(), c) {
            Some(i) => {
                assert forall|j: int| 0 <= j < i + 1 implies s[j] != c by {
                    if j > 0 {
                        assert(s[j] == s.drop_first()[j - 1]);
                    }
                }
            },
            None => {
                assert forall|j: int| 0 <= j < s.len() implies s[j] != c by {
                    if j > 0 {
                        assert(s[j] == s.drop_first()[j - 1]);
                    }
                }
            },
        }
    }
}

proof fn lemma_first_index_at(s: Seq<char>, c: char, i: int)
    requires
        0 <= i < s.len(),
        s[i] == c,
        forall|j: int| 0 <= j < i ==> s[j] != c,
    ensures
        first_index(s, c) == Some(i),
    decreases s.len(),
{
    if i > 0 {
        assert forall|j: int| 0 <= j < i - 1 implies s.drop_first()[j] != c by {
            assert(s.drop_first()[j] == s[j + 1]);
        }
        lemma_first_index_at(s.drop_first(), c, i - 1);
    }
}

/// The environment that `KEY=VALUE` items give: items without `=` are
/// skipped, and a later item for a key wins.
pub open spec fn env_items(items: Seq<Seq<char>>) -> Map<Seq<char>, Seq<char>>
    decreases items.len(),
{
    if items.len() == 0 {
        Map::empty()
    } else {
        let m = env_items(items.drop_last());
        match split_at_eq(items.last()) {
            Some((k, v)) => m.insert(k, v),
            None => m,
        }
    }
}

fn split_env_item(item: &str) -> (r: Option<(String, String)>)
    ensures
        match r {
            Some((k, v)) => split_at_eq(item@) == Some((k@, v@)),
            None => split_at_eq(item@) is None,
        },
{
    let cs = chars_of(item);
    let n = cs.len();
    let mut i: usize = 0;
    while i < n
        invariant
            n == cs@.len(),
            cs@ == item@,
            i <= n,
            forall|j: int| 0 <= j < i ==> cs@[j] != '=',
        decreases n - i,
    {
        if cs[i] == '=' {
            proof {
                lemma_first_index_at(item@, '=', i as int);
            }
            let mut key: Vec<char> = Vec::new();
            let mut k: usize = 0;
            while k < i
                invariant
                    cs@ == item@,
                    k <= i < n,
                    n == cs@.len(),
                    key@ == cs@.take(k as int),
                decreases i - k,
            {
                key.push(cs[k]);
                assert(cs@.take(k + 1) =~= cs@.take(k as int).push(cs@[k as int]));
                k = k + 1;
            }
            let mut value: Vec<char> = Vec::new();
            let mut k: usize = i + 1;
            while k < n
                invariant
                    cs@ == item@,
                    i < n,
                    i + 1 <= k <= n,
                    n == cs@.len(),
                    value@ == cs@.subrange(i + 1, k as int),
                decreases n - k,
            {
                value.push(cs[k]);
                assert(cs@.subrange(i + 1, k + 1) =~= cs@.subrange(i + 1, k as int).push(cs@[k as int]));
                k = k + 1;
            }
            assert(cs@.subrange(i + 1, n as int) =~= item@.skip(i + 1));
            return Some((string_from_chars(key.as_slice()), string_from_chars(value.as_slice())));
        }
        i = i + 1;
    }
    proof {
        lemma_first_index(item@, '=');
        if first_index(item@, '=') is Some {
            let j = first_index(item@, '=')->0;
            assert(item@[j] == '=');
        }
    }
    None
}

/// Collects `KEY=VALUE` items into an environment.
pub fn parse_env_pairs(items: &Vec<String>) -> (r: StrMap<String>)
    ensures
        r.to_map().dom() == env_items(views(items@)).dom(),
        forall|k: Seq<char>| #[trigger] r.to_map().dom().contains(k) ==> r.to_map()[k]@ == env_items(views(items@))[k],
{
    let mut env: StrMap<String> = StrMap::new();
    assert(env.to_map().dom() =~= Set::<Seq<char>>::empty());
    let n = items.len();
    for i in 0..n
        invariant
            n == items@.len(),
            env.to_map().dom() == env_items(views(items@).take(i as int)).dom(),
            forall|k: Seq<char>| #[trigger] env.to_map().dom().contains(k) ==> env.to_map()[k]@ == env_items(views(items@).take(i as int))[k],
    {
        assert(views(items@).take(i + 1).drop_last() =~= views(items@).take(i as int));
        assert(views(items@).take(i + 1).last() == items@[i as int]@);
        if let Some((k, v)) = split_env_item(items[i].as_str()) {
            env.insert(k, v);
        }
        assert(env.to_map().dom() =~= env_items(views(items@).take(i + 1)).dom());
    }
    assert(views(items@).take(n as int) =~= views(items@));
    env
}


/// The HTTP method of a client request.
#[derive(Clone, Copy, Debug, PartialEq, Eq)]
pub enum HttpMethod {
    Get,
    Post,
    Delete,
}

/// A command of the client that talks to a running daemon.
pub enum ClientRequest {
    Status,
    List,
    Start(String),
    Stop(String),
    Restart(String),
    Add(String),
    Remove(String),
    Logs(String, usize),
    Reload,
}

/// The method and path (after the server's URL) of a client request.
pub open spec fn request_target(c: ClientRequest) -> (HttpMethod, Seq<char>) {
    match c {
        ClientRequest::Status => (HttpMethod::Get, "/api/v1/processes"@),
        ClientRequest::List => (HttpMethod::Get, "/api/v1/processes"@),
        ClientRequest::Start(n) => (HttpMethod::Post, "/api/v1/processes/"@ + n@ + "/start"@),
        ClientRequest::Stop(n) => (HttpMethod::Post, "/api/v1/processes/"@ + n@ + "/stop"@),
        ClientRequest::Restart(n) => (HttpMethod::Post, "/api/v1/processes/"@ + n@ + "/restart"@),
        ClientRequest::Add(n) => (HttpMethod::Post, "/api/v1/processes/"@ + n@),
        ClientRequest::Remove(n) => (HttpMethod::Delete, "/api/v1/processes/"@ + n@),
        ClientRequest::Logs(n, lines) => (
            HttpMethod::Get,
            "/api/v1/processes/"@ + n@ + "/logs?lines="@ + decimal(lines as nat),
        ),
        ClientRequest::Reload => (HttpMethod::Post, "/api/v1/reload"@),
    }
}

/// The method and full URL of a client request to the daemon at `server_url`.
pub fn request_url(server_url: &str, c: &ClientRequest) -> (r: (HttpMethod, String))
    ensures
        r.0 == request_target(*c).0,
        r.1@ == server_url@ + request_target(*c).1,
{
    let mut url = String::from_str(server_url);
    let method = match c {
        ClientRequest::Status | ClientRequest::List => {
            url.append("/api/v1/processes");
            HttpMethod::Get
        },
        ClientRequest::Start(n) => {
            url.append("/api/v1/processes/");
            url.append(n.as_str());
            url.append("/start");
            HttpMethod::Post
        },
        ClientRequest::Stop(n) => {
            url.append("/api/v1/processes/");
            url.append(n.as_str());
            url.append("/stop");
            HttpMethod::Post
        },
        ClientRequest::Restart(n) => {
            url.append("/api/v1/processes/");
            url.append(n.as_str());
            url.append("/restart");
            HttpMethod::Post
        },
        ClientRequest::Add(n) => {
            url.append("/api/v1/processes/");
            url.append(n.as_str());
            HttpMethod::Post
        },
        ClientRequest::Remove(n) => {
            url.append("/api/v1/processes/");
            url.append(n.as_str());
            HttpMethod::Delete
        },
        ClientRequest::Logs(n, lines) => {
            url.append("/api/v1/processes/");
            url.append(n.as_str());
            url.append("/logs?lines=");
            push_decimal(&mut url, *lines as u64);
            HttpMethod::Get
        },
        ClientRequest::Reload => {
            url.append("/api/v1/reload");
            HttpMethod::Post
        },
    };
    (method, url)
}

/// A timestamp as the client prints it: UTC, `%H:%M:%S`.
pub open spec fn clock_time_text(micros: i64) -> Seq<char> {
    utc_text(micros, "%H:%M:%S"@)
}

/// A log entry as the client prints it: `[time] [OUT|ERR] line`.
pub fn client_log_line(e: &LogEntry) -> (r: String)
    ensures
        r@ == "["@ + clock_time_text(e.timestamp) + "] ["@ + stream_tag(e.stream) + "] "@ + e.line@,
{
    let mut r = String::from_str("[");
    let t = format_utc(e.timestamp, "%H:%M:%S");
    r.append(t.as_str());
    r.append("] [");
    match e.stream {
        LogStream::Stdout => r.append("OUT"),
        LogStream::Stderr => r.append("ERR"),
    }
    r.append("] ");
    r.append(e.line.as_str());
    r
}

// ── Service registration ──────────────────────────────────────

/// The systemd unit that starts the daemon `exe` with configuration
/// `config`, working in `workdir`.
pub open spec fn unit_text(exe: Seq<char>, config: Seq<char>, workdir: Seq<char>) -> Seq<char> {
    "[Unit]\nDescription=咕咕鸽进程守护 (GuguGuard)\nAfter=network.target\n\n[Service]\nType=simple\nExecStart="@
        + exe + " run -c "@ + config
        + "\nRestart=on-failure\nRestartSec=5\nKillSignal=SIGTERM\nTimeoutStopSec=30\nWorkingDirectory="@
        + workdir + "\n\n[Install]\nWantedBy=multi-user.target\n"@
}

/// The systemd unit for the daemon `exe` with the (absolute) configuration
/// file `config`; it works in the directory of the configuration file, or
/// in `/` when that has none.
pub fn systemd_unit(exe: &str, config: &str) -> (r: String)
    ensures
        exists|workdir: Seq<char>| r@ == unit_text(exe@, config@, workdir),
        config@.len() == 0 ==> r@ == unit_text(exe@, config@, "/"@),
        clear_parent(config@) ==> r@ == unit_text(exe@, config@, parent_part(config@)),
        plain_name(config@) ==> r@ == unit_text(exe@, config@, Seq::<char>::empty()),
{
    let workdir = match path_parent(config) {
        Some(d) => d,
        None => String::from_str("/"),
    };
    let mut r = String::from_str(
        "[Unit]\nDescription=咕咕鸽进程守护 (GuguGuard)\nAfter=network.target\n\n[Service]\nType=simple\nExecStart=",
    );
    r.append(exe);
    r.append(" run -c ");
    r.append(config);
    r.append(
        "\nRestart=on-failure\nRestartSec=5\nKillSignal=SIGTERM\nTimeoutStopSec=30\nWorkingDirectory=",
    );
    r.append(workdir.as_str());
    r.append("\n\n[Install]\nWantedBy=multi-user.target\n");
    assert(r@ == unit_text(exe@, config@, workdir@));
    r
}

/// The command line that the scheduled task runs: the daemon `exe` with
/// configuration `config`, both quoted.
pub fn task_command(exe: &str, config: &str) -> (r: String)
    ensures
        r@ == "\""@ + exe@ + "\" run -c \""@ + config@ + "\""@,
{
    let mut r = String::from_str("\"");
    r.append(exe);
    r.append("\" run -c \"");
    r.append(config);
    r.append("\"");
    r
}


// ── Running as a Windows service ──────────────────────────────

/// The arguments the service manager starts the daemon with.
pub fn service_launch_args(config: &str) -> (r: Vec<String>)
    ensures
        views(r@) == seq!["run"@, "-c"@, config@, "--mode"@, "service"@],
{
    let r = vec![
        String::from_str("run"),
        String::from_str("-c"),
        String::from_str(config),
        String::from_str("--mode"),
        String::from_str("service"),
    ];
    assert(views(r@) =~= seq!["run"@, "-c"@, config@, "--mode"@, "service"@]);
    r
}

/// A control request that the service manager sends.
#[derive(Clone, Copy, Debug, PartialEq, Eq)]
pub enum ServiceControl {
    Stop,
    Interrogate,
    Other,
}

/// The service's answer to a control request.
#[derive(Clone, Copy, Debug, PartialEq, Eq)]
pub enum ControlAnswer {
    NoError,
    NotImplemented,
}

/// The answer to a control request, and whether it asks the daemon to shut
/// down: a stop does; an interrogation is answered; the rest is refused.
pub fn control_answer(c: ServiceControl) -> (r: (ControlAnswer, bool))
    ensures
        r == match c {
            ServiceControl::Stop => (ControlAnswer::NoError, true),
            ServiceControl::Interrogate => (ControlAnswer::NoError, false),
            ServiceControl::Other => (ControlAnswer::NotImplemented, false),
        },
{
    match c {
        ServiceControl::Stop => (ControlAnswer::NoError, true),
        ServiceControl::Interrogate => (ControlAnswer::NoError, false),
        ServiceControl::Other => (ControlAnswer::NotImplemented, false),
    }
}

/// The state a service reports.
#[derive(Clone, Copy, Debug, PartialEq, Eq)]
pub enum ServicePhase {
    StartPending,
    Running,
    StopPending,
    Stopped,
}

/// What happened to the service.
#[derive(Clone, Copy, Debug, PartialEq, Eq)]
pub enum ServiceEvent {
    /// The control handler is registered.
    Registered,
    /// The daemon's core is up.
    CoreStarted,
    /// The daemon's core could not start.
    CoreFailed,
    /// A stop was requested.
    StopRequested,
    /// The daemon has shut down.
    CoreStopped,
}

/// A status report to the service manager.
#[derive(Clone, Copy, Debug, PartialEq, Eq)]
pub struct ServiceReport {
    pub phase: ServicePhase,
    pub accepts_stop: bool,
    pub exit_code: u32,
    pub wait_hint_secs: u64,
}

/// The report that follows an event.
pub open spec fn report_for(e: ServiceEvent) -> ServiceReport {
    match e {
        ServiceEvent::Registered => ServiceReport { phase: ServicePhase::StartPending, accepts_stop: false, exit_code: 0, wait_hint_secs: 5 },
        ServiceEvent::CoreStarted => ServiceReport { phase: ServicePhase::Running, accepts_stop: true, exit_code: 0, wait_hint_secs: 0 },
        ServiceEvent::CoreFailed => ServiceReport { phase: ServicePhase::Stopped, accepts_stop: false, exit_code: 1, wait_hint_secs: 0 },
        ServiceEvent::StopRequested => ServiceReport { phase: ServicePhase::StopPending, accepts_stop: false, exit_code: 0, wait_hint_secs: 10 },
        ServiceEvent::CoreStopped => ServiceReport { phase: ServicePhase::Stopped, accepts_stop: false, exit_code: 0, wait_hint_secs: 0 },
    }
}

/// The status to report after `e`.
pub fn service_report(e: ServiceEvent) -> (r: ServiceReport)
    ensures
        r == report_for(e),
{
    match e {
        ServiceEvent::Registered => ServiceReport { phase: ServicePhase::StartPending, accepts_stop: false, exit_code: 0, wait_hint_secs: 5 },
        ServiceEvent::CoreStarted => ServiceReport { phase: ServicePhase::Running, accepts_stop: true, exit_code: 0, wait_hint_secs: 0 },
        ServiceEvent::CoreFailed => ServiceReport { phase: ServicePhase::Stopped, accepts_stop: false, exit_code: 1, wait_hint_secs: 0 },
        ServiceEvent::StopRequested => ServiceReport { phase: ServicePhase::StopPending, accepts_stop: false, exit_code: 0, wait_hint_secs: 10 },
        ServiceEvent::CoreStopped => ServiceReport { phase: ServicePhase::Stopped, accepts_stop: false, exit_code: 0, wait_hint_secs: 0 },
    }
}

} // verus!
