use vstd::prelude::*;

use crate::error::GuguError;
use crate::strmap::StrMap;
use crate::text::{chars_of, join, join_strings, string_from_chars, views};

verus! {

// ── Paths ──────────────────────────────────────────────────────
//
// Paths are held as strings; what the platform decides about them
// (absoluteness, joining, parents, equality) is asked of `std::path`.

/// A character that separates path components on some platform.
pub open spec fn path_separator(c: char) -> bool {
    c == '/' || c == '\\'
}

/// A single file or directory name that every platform reads alike: not
/// empty, not `.` or `..`, without separators and without `:` (which begins
/// a drive prefix on Windows).
pub open spec fn plain_name(s: Seq<char>) -> bool {
    &&& s.len() > 0
    &&& s != seq!['.']
    &&& s != seq!['.', '.']
    &&& forall|i: int| 0 <= i < s.len() ==> !path_separator(#[trigger] s[i]) && s[i] != ':'
}

/// The part of `path` after its last `/`.
pub open spec fn last_segment(path: Seq<char>) -> Seq<char>
    decreases path.len(),
{
    if path.len() == 0 {
        path
    } else if path.last() == '/' {
        Seq::empty()
    } else {
        last_segment(path.drop_last()).push(path.last())
    }
}

/// A path whose file name every platform reads alike: it holds no `\` and
/// no `:`, does not begin with `//` (a network prefix on Windows), and its
/// part after the last `/` is a plain name, which is then its file name.
pub open spec fn tidy_path(path: Seq<char>) -> bool {
    &&& forall|i: int| 0 <= i < path.len() ==> #[trigger] path[i] != '\\' && path[i] != ':'
    &&& !(path.len() >= 2 && path[0] == '/' && path[1] == '/')
    &&& plain_name(last_segment(path))
}

/// `path` without its last segment and the `/` before it.
pub open spec fn before_last_segment(path: Seq<char>) -> Seq<char> {
    path.take(path.len() - last_segment(path).len() - 1)
}

/// A tidy path `dir/name` whose parent every platform reads alike: `dir` is
/// empty (the path hangs off the root) or ends neither in `/` nor in a `.`
/// segment.
pub open spec fn clear_parent(path: Seq<char>) -> bool {
    let d = before_last_segment(path);
    &&& tidy_path(path)
    &&& last_segment(path).len() < path.len()
    &&& (d.len() == 0 || (d.last() != '/' && last_segment(d) != seq!['.']))
}

/// The parent of such a path: `dir`, or `/` when `dir` is empty.
pub open spec fn parent_part(path: Seq<char>) -> Seq<char> {
    if before_last_segment(path).len() == 0 {
        seq!['/']
    } else {
        before_last_segment(path)
    }
}

/// A base that a name is joined to with one separator on every platform:
/// not empty, ending neither in a separator nor in `:` (a bare drive on
/// Windows), and not beginning with two separators (a network, device or
/// verbatim prefix on Windows; a verbatim base is rebuilt from its
/// components when joined).
pub open spec fn joinable(base: Seq<char>) -> bool {
    &&& base.len() > 0
    &&& !path_separator(base.last())
    &&& base.last() != ':'
    &&& !(base.len() >= 2 && path_separator(base[0]) && path_separator(base[1]))
}

/// A path that every platform splits into components alike, and whose text
/// is the only spelling of those components: no backslash, no `:`, no empty
/// segment (no doubled `/`, no `/` at the end but for the root itself) and no
/// `.` segment.
pub open spec fn plain_path(p: Seq<char>) -> bool {
    &&& forall|i: int| 0 <= i < p.len() ==> #[trigger] p[i] != '\\' && p[i] != ':'
    &&& forall|i: int| 0 <= i < p.len() - 1 && #[trigger] p[i] == '/' ==> p[i + 1] != '/'
    &&& p.len() > 1 ==> p.last() != '/'
    &&& forall|i: int|
        0 <= i < p.len() && #[trigger] p[i] == '.' ==> !((i == 0 || p[i - 1] == '/') && (i == p.len() - 1
            || p[i + 1] == '/'))
}

/// A relative path that every platform reads as relative and adds to a base
/// as it is written: not empty, without backslash or `:` (so without a
/// Windows prefix) and not beginning with `/` (so without a root).
pub open spec fn relative_text(p: Seq<char>) -> bool {
    &&& p.len() > 0
    &&& p[0] != '/'
    &&& forall|i: int| 0 <= i < p.len() ==> #[trigger] p[i] != '\\' && p[i] != ':'
}

/// `base` and `name` with one separator between them.
pub open spec fn joined_with_separator(r: Seq<char>, base: Seq<char>, name: Seq<char>) -> bool {
    exists|c: char| path_separator(c) && r == base + seq![c] + name
}

/// The position of the last `.` in `name`, or -1.
pub open spec fn last_dot(name: Seq<char>) -> int
    decreases name.len(),
{
    if name.len() == 0 {
        -1
    } else if name.last() == '.' {
        name.len() - 1
    } else {
        last_dot(name.drop_last())
    }
}

/// The stem of a file name: all of it when its only `.` is the first
/// character or it has none, else the part before the last `.`.
pub open spec fn name_stem(name: Seq<char>) -> Seq<char> {
    if last_dot(name) <= 0 {
        name
    } else {
        name.take(last_dot(name))
    }
}

/// The extension of a file name: none when its only `.` is the first
/// character or it has none, else the part after the last `.`.
pub open spec fn name_extension(name: Seq<char>) -> Option<Seq<char>> {
    if last_dot(name) <= 0 {
        None
    } else {
        Some(name.skip(last_dot(name) + 1))
    }
}

/// Whether `path` is absolute on this platform.
///
/// Trusted: calls `std::path::Path::is_absolute`. The answer differs between
/// platforms, so only what holds on all of them is claimed: an absolute path
/// starts with a root (on Windows also a prefix, which needs `:` or a leading
/// separator), so neither the empty path, nor a plain name, nor any path of
/// `relative_text` is one.
#[verifier::external_body]
pub(crate) fn path_is_absolute(path: &str) -> (r: bool)
    ensures
        path@.len() == 0 ==> !r,
        plain_name(path@) ==> !r,
        relative_text(path@) ==> !r,
{
    std::path::Path::new(path).is_absolute()
}

/// `base` joined with `path` on this platform.
///
/// Trusted: calls `std::path::Path::join` and renders the result (of two
/// UTF-8 strings and a separator, so nothing is lost). Claimed, as the
/// documentation of `PathBuf::push` says for a path with neither root nor
/// prefix: such a path (a plain name, or any path of `relative_text`) is
/// added at the end as written, and to a base that does not already end in a
/// separator (or a bare drive) and has no verbatim prefix (which would make
/// it normalise the path) it is added after one separator, `/` or `\`.
/// Which of the two, what an empty base gives, and what an absolute or
/// rooted `path` gives differ between platforms and are not stated.
#[verifier::external_body]
pub(crate) fn path_join(base: &str, path: &str) -> (r: String)
    ensures
        plain_name(path@) ==> path@.is_suffix_of(r@),
        plain_name(path@) && joinable(base@) ==> joined_with_separator(r@, base@, path@),
        relative_text(path@) && joinable(base@) ==> joined_with_separator(r@, base@, path@),
{
    std::path::Path::new(base).join(path).to_string_lossy().to_string()
}

/// The parent of `path`, if it has one.
///
/// Trusted: calls `std::path::Path::parent`. Claimed, as its documentation
/// says: the empty path has no parent; a path of one plain name has the empty
/// parent; a parent is the path without its final component, so a shorter
/// beginning of it; for a path `dir/name` that every platform reads alike it
/// is `dir`, or the root `/` when `dir` is empty; the root `/` has none.
/// Which other paths have none (other roots, prefixes) differs between
/// platforms and is not stated.
#[verifier::external_body]
pub(crate) fn path_parent(path: &str) -> (r: Option<String>)
    ensures
        path@.len() == 0 ==> r is None,
        plain_name(path@) ==> r is Some && r.unwrap()@.len() == 0,
        r matches Some(p) ==> p@.len() < path@.len() && p@.is_prefix_of(path@),
        clear_parent(path@) ==> r is Some && r.unwrap()@ == parent_part(path@),
        path@ == seq!['/'] ==> r is None,
{
    match std::path::Path::new(path).parent() {
        Some(p) => Some(p.to_string_lossy().to_string()),
        None => None,
    }
}

/// The file name of `path` without its extension, if it has a file name.
///
/// Trusted: calls `std::path::Path::file_stem`. Claimed, as its
/// documentation says, for a path whose file name every platform reads alike:
/// the stem of that name. Other paths follow the platform's rules and nothing
/// is claimed of them.
#[verifier::external_body]
pub(crate) fn path_file_stem(path: &str) -> (r: Option<String>)
    ensures
        tidy_path(path@) ==> r is Some && r.unwrap()@ == name_stem(last_segment(path@)),
{
    match std::path::Path::new(path).file_stem() {
        Some(s) => Some(s.to_string_lossy().to_string()),
        None => None,
    }
}

/// The extension of the file name of `path`, if it has one.
///
/// Trusted: calls `std::path::Path::extension`. Claimed, as its
/// documentation says, for a path whose file name every platform reads alike:
/// the extension of that name. Other paths follow the platform's rules and
/// nothing is claimed of them.
#[verifier::external_body]
pub(crate) fn path_extension(path: &str) -> (r: Option<String>)
    ensures
        tidy_path(path@) ==> opt_view(r) == name_extension(last_segment(path@)),
{
    match std::path::Path::new(path).extension() {
        Some(s) => Some(s.to_string_lossy().to_string()),
        None => None,
    }
}

/// Whether `a` and `b` name the same path, compared component by component.
///
/// Trusted: calls `PartialEq` of `std::path::Path`, which compares the paths'
/// components. Claimed: a path is equal to itself, and two paths that every
/// platform splits alike into components spelled one way only are equal
/// exactly when their texts are. Which other differently spelled paths
/// compare equal differs between platforms and is not stated.
#[verifier::external_body]
pub(crate) fn same_path(a: &str, b: &str) -> (r: bool)
    ensures
        a@ == b@ ==> r,
        plain_path(a@) && plain_path(b@) ==> (r <==> a@ == b@),
{
    std::path::Path::new(a) == std::path::Path::new(b)
}

/// `path` itself when it is absolute, otherwise `path` joined to `base`.
pub fn resolve_relative_path(path: &str, base: &str) -> (r: String)
    ensures
        plain_name(path@) ==> path@.is_suffix_of(r@),
        plain_name(path@) && joinable(base@) ==> joined_with_separator(r@, base@, path@),
        relative_text(path@) && joinable(base@) ==> joined_with_separator(r@, base@, path@),
{
    if path_is_absolute(path) {
        String::from_str(path)
    } else {
        path_join(base, path)
    }
}

/// `path` with every backslash turned into a forward slash.
pub open spec fn forward_slashes(path: Seq<char>) -> Seq<char> {
    path.map_values(|c: char| if c == '\\' { '/' } else { c })
}

pub fn path_to_forward_slashes(path: &str) -> (r: String)
    ensures
        r@ == forward_slashes(path@),
{
    let cs = chars_of(path);
    let mut out: Vec<char> = Vec::new();
    let n = cs.len();
    for i in 0..n
        invariant
            n == cs@.len(),
            cs@ == path@,
            out@ == forward_slashes(path@).take(i as int),
    {
        let c = cs[i];
        out.push(if c == '\\' { '/' } else { c });
        assert(out@ =~= forward_slashes(path@).take(i + 1));
    }
    assert(out@ =~= forward_slashes(path@));
    string_from_chars(out.as_slice())
}

/// The extended-length prefix `\\?\` and its UNC form `\\?\UNC\`.
pub open spec fn unc_long_prefix() -> Seq<char> {
    seq!['\\', '\\', '?', '\\', 'U', 'N', 'C', '\\']
}

pub open spec fn long_prefix() -> Seq<char> {
    seq!['\\', '\\', '?', '\\']
}

/// A Windows path with its extended-length prefix removed:
/// `\\?\UNC\server\share` becomes `\\server\share`, `\\?\C:\x` becomes `C:\x`.
pub open spec fn without_unc_prefix(path: Seq<char>) -> Seq<char> {
    if unc_long_prefix().is_prefix_of(path) {
        seq!['\\', '\\'] + path.skip(8)
    } else if long_prefix().is_prefix_of(path) {
        path.skip(4)
    } else {
        path
    }
}

fn starts_with_chars(s: &Vec<char>, p: &Vec<char>) -> (r: bool)
    ensures
        r == p@.is_prefix_of(s@),
{
    if p.len() > s.len() {
        return false;
    }
    let n = p.len();
    for i in 0..n
        invariant
            n == p@.len(),
            n <= s@.len(),
            forall|j: int| 0 <= j < i ==> p@[j] == s@[j],
    {
        if p[i] != s[i] {
            return false;
        }
    }
    true
}

pub fn strip_unc_prefix(path: &str) -> (r: String)
    ensures
        r@ == without_unc_prefix(path@),
{
    let cs = chars_of(path);
    let unc: Vec<char> = vec!['\\', '\\', '?', '\\', 'U', 'N', 'C', '\\'];
    let long: Vec<char> = vec!['\\', '\\', '?', '\\'];
    assert(unc@ =~= unc_long_prefix());
    assert(long@ =~= long_prefix());
    let skip: usize;
    let mut out: Vec<char> = Vec::new();
    if starts_with_chars(&cs, &unc) {
        out.push('\\');
        out.push('\\');
        skip = 8;
    } else if starts_with_chars(&cs, &long) {
        skip = 4;
    } else {
        skip = 0;
    }
    let ghost head = out@;
    let n = cs.len();
    for i in skip..n
        invariant
            n == cs@.len(),
            skip <= n,
            out@ == head + cs@.subrange(skip as int, i as int),
    {
        out.push(cs[i]);
        assert(out@ =~= head + cs@.subrange(skip as int, i + 1));
    }
    assert(cs@.subrange(skip as int, n as int) =~= cs@.skip(skip as int));
    assert(out@ =~= without_unc_prefix(path@));
    string_from_chars(out.as_slice())
}

} // verus!

verus! {

// ── Configuration types ────────────────────────────────────────

#[derive(Debug, Clone)]
pub struct WebConfig {
    pub addr: Option<String>,
    pub port: Option<u16>,
    pub cors_origins: Vec<String>,
}

impl Default for WebConfig {
    /// Listen on every interface, port 9090, with no CORS restriction.
    fn default() -> (r: Self)
        ensures
            r.addr matches Some(a) && a@ == "0.0.0.0"@,
            r.port == Some(9090u16),
            r.cors_origins@.len() == 0,
    {
        WebConfig { addr: Some(String::from_str("0.0.0.0")), port: Some(9090), cors_origins: Vec::new() }
    }
}

#[derive(Debug, Clone)]
pub struct DaemonConfig {
    pub pid_file: Option<String>,
    pub log_dir: Option<String>,
    pub api_key: Option<String>,
    pub web: WebConfig,
}

impl Default for DaemonConfig {
    fn default() -> (r: Self)
        ensures
            r.pid_file is None,
            r.log_dir is None,
            r.api_key is None,
            r.web.addr matches Some(a) && a@ == "0.0.0.0"@,
            r.web.port == Some(9090u16),
            r.web.cors_origins@.len() == 0,
    {
        DaemonConfig { pid_file: None, log_dir: None, api_key: None, web: WebConfig::default() }
    }
}

#[derive(Debug, Clone)]
pub enum HealthCheckType {
    Tcp { host: Option<String>, port: u16 },
    Http { url: String },
}

#[derive(Debug, Clone)]
pub struct HealthCheckConfig {
    pub check_type: HealthCheckType,
    pub interval_secs: u64,
    pub timeout_secs: u64,
}

#[derive(Debug, Clone)]
pub struct ProcessConfig {
    pub command: String,
    pub args: Vec<String>,
    pub working_dir: Option<String>,
    pub env: StrMap<String>,
    pub auto_start: bool,
    pub auto_restart: bool,
    pub max_restarts: u32,
    pub restart_delay_secs: u64,
    pub stop_command: Option<String>,
    pub stop_timeout_secs: u64,
    pub health_check: Option<HealthCheckConfig>,
    pub unhealthy_restart: bool,
    pub depends_on: Vec<String>,
    pub group: Option<String>,
    pub max_log_size_mb: Option<u64>,
    pub stdout_log: Option<String>,
    pub stderr_log: Option<String>,
}

#[derive(Debug, Clone)]
pub struct AppConfig {
    pub daemon: DaemonConfig,
    pub processes: StrMap<ProcessConfig>,
}

impl Default for AppConfig {
    /// The default daemon settings and no processes.
    fn default() -> (r: Self)
        ensures
            r.daemon.pid_file is None,
            r.daemon.log_dir is None,
            r.daemon.api_key is None,
            r.daemon.web.addr matches Some(a) && a@ == "0.0.0.0"@,
            r.daemon.web.port == Some(9090u16),
            r.daemon.web.cors_origins@.len() == 0,
            r.processes.keys().len() == 0,
    {
        AppConfig { daemon: DaemonConfig::default(), processes: StrMap::new() }
    }
}

pub fn default_true() -> (r: bool)
    ensures
        r,
{
    true
}

pub fn default_max_restarts() -> (r: u32)
    ensures
        r == 3,
{
    3
}

pub fn default_restart_delay() -> (r: u64)
    ensures
        r == 5,
{
    5
}

pub fn default_stop_timeout() -> (r: u64)
    ensures
        r == 10,
{
    10
}

pub fn default_health_interval() -> (r: u64)
    ensures
        r == 30,
{
    30
}

pub fn default_health_timeout() -> (r: u64)
    ensures
        r == 5,
{
    5
}

// ── Validation ────────────────────────────────────────────────

/// Unicode `White_Space`, the characters that `str::trim` removes.
pub open spec fn is_white_space(c: char) -> bool {
    let u = c as u32;
    ||| 0x9 <= u <= 0xD
    ||| u == 0x20
    ||| u == 0x85
    ||| u == 0xA0
    ||| u == 0x1680
    ||| 0x2000 <= u <= 0x200A
    ||| u == 0x2028
    ||| u == 0x2029
    ||| u == 0x202F
    ||| u == 0x205F
    ||| u == 0x3000
}

/// Nothing but white space: what trims to the empty string.
pub open spec fn is_blank(s: Seq<char>) -> bool {
    forall|i: int| 0 <= i < s.len() ==> is_white_space(s[i])
}

pub(crate) fn white_space(c: char) -> (r: bool)
    ensures
        r == is_white_space(c),
{
    let u = c as u32;
    (0x9 <= u && u <= 0xD) || u == 0x20 || u == 0x85 || u == 0xA0 || u == 0x1680
        || (0x2000 <= u && u <= 0x200A) || u == 0x2028 || u == 0x2029 || u == 0x202F
        || u == 0x205F || u == 0x3000
}

/// Whether `s` trims to the empty string.
pub fn blank(s: &str) -> (r: bool)
    ensures
        r == is_blank(s@),
{
    let cs = chars_of(s);
    let n = cs.len();
    for i in 0..n
        invariant
            n == cs@.len(),
            cs@ == s@,
            forall|j: int| 0 <= j < i ==> is_white_space(s@[j]),
    {
        if !white_space(cs[i]) {
            return false;
        }
    }
    true
}

/// The message of the first rule that a health check breaks, if any.
pub open spec fn health_check_problem(hc: HealthCheckConfig) -> Option<Seq<char>> {
    match hc.check_type {
        HealthCheckType::Tcp { port, .. } if port == 0 => Some("健康检查端口不能为 0"@),
        HealthCheckType::Http { url } if is_blank(url@) => Some("HTTP 健康检查 URL 不能为空"@),
        _ => if hc.interval_secs == 0 {
            Some("健康检查间隔不能为 0 秒"@)
        } else if hc.timeout_secs == 0 {
            Some("健康检查超时不能为 0 秒"@)
        } else {
            None
        },
    }
}

/// The message of the first rule that a process configuration breaks, if any.
pub open spec fn config_problem(pc: ProcessConfig) -> Option<Seq<char>> {
    if is_blank(pc.command@) {
        Some("command 不能为空"@)
    } else {
        match pc.health_check {
            Some(hc) => health_check_problem(hc),
            None => None,
        }
    }
}

/// `r` is `Ok` exactly when `problem` is `None`, and otherwise a configuration
/// error carrying that message.
pub open spec fn reports(r: Result<(), GuguError>, problem: Option<Seq<char>>) -> bool {
    match problem {
        None => r is Ok,
        Some(m) => r matches Err(GuguError::ConfigError(msg)) && msg@ == m,
    }
}

fn config_error(msg: &str) -> (r: Result<(), GuguError>)
    ensures
        r matches Err(GuguError::ConfigError(m)) && m@ == msg@,
{
    Err(GuguError::ConfigError(String::from_str(msg)))
}

/// A health check is accepted exactly when it can be run: a TCP check on a
/// port other than 0 or an HTTP check on a URL that is not blank, with an
/// interval and a timeout of at least one second.
pub proof fn lemma_health_check_accepted(hc: HealthCheckConfig)
    ensures
        health_check_problem(hc) is None <==> ({
            &&& match hc.check_type {
                HealthCheckType::Tcp { port, .. } => port != 0,
                HealthCheckType::Http { url } => !is_blank(url@),
            }
            &&& hc.interval_secs > 0
            &&& hc.timeout_secs > 0
        }),
{
}

/// A process whose health check has a zero interval or a zero timeout is
/// refused, whatever the kind of the check.
pub proof fn lemma_zero_interval_refused(pc: ProcessConfig)
    requires
        pc.health_check matches Some(hc) && (hc.interval_secs == 0 || hc.timeout_secs == 0),
    ensures
        config_problem(pc) is Some,
{
    lemma_health_check_accepted(pc.health_check->0);
}

impl HealthCheckConfig {
    pub fn validate(&self) -> (r: Result<(), GuguError>)
        ensures
            reports(r, health_check_problem(*self)),
            r is Ok <==> ({
                &&& match self.check_type {
                    HealthCheckType::Tcp { port, .. } => port != 0,
                    HealthCheckType::Http { url } => !is_blank(url@),
                }
                &&& self.interval_secs > 0
                &&& self.timeout_secs > 0
            }),
    {
        match &self.check_type {
            HealthCheckType::Tcp { host: _, port } => {
                if *port == 0 {
                    return config_error("健康检查端口不能为 0");
                }
            },
            HealthCheckType::Http { url } => {
                if blank(url.as_str()) {
                    return config_error("HTTP 健康检查 URL 不能为空");
                }
            },
        }
        if self.interval_secs == 0 {
            return config_error("健康检查间隔不能为 0 秒");
        }
        if self.timeout_secs == 0 {
            return config_error("健康检查超时不能为 0 秒");
        }
        Ok(())
    }
}

/// The command line that is handed to the shell: the command, then the
/// arguments, separated by single spaces.
pub open spec fn command_line(command: Seq<char>, args: Seq<Seq<char>>) -> Seq<char> {
    if args.len() == 0 {
        command
    } else {
        command + " "@ + join(args, " "@)
    }
}

/// Whether two optional strings hold the same text.
pub open spec fn same_text(a: Option<String>, b: Option<String>) -> bool {
    match (a, b) {
        (None, None) => true,
        (Some(x), Some(y)) => x@ == y@,
        _ => false,
    }
}

/// Two environment tables bind the same names to the same texts.
pub open spec fn same_env(a: StrMap<String>, b: StrMap<String>) -> bool {
    &&& a.to_map().dom() == b.to_map().dom()
    &&& forall|k: Seq<char>| #[trigger] a.to_map().dom().contains(k) ==> a.to_map()[k]@ == b.to_map()[k]@
}

/// The fields that decide how a process is launched are equal, the working
/// directory compared as text.
pub open spec fn same_runtime_fields(a: ProcessConfig, b: ProcessConfig) -> bool {
    &&& a.command@ == b.command@
    &&& views(a.args@) == views(b.args@)
    &&& same_text(a.working_dir, b.working_dir)
    &&& same_env(a.env, b.env)
    &&& same_text(a.stop_command, b.stop_command)
}

/// Two working directories agree as far as every platform tells: both
/// absent, or both present and, where both are plain paths, spelled alike.
pub open spec fn dirs_agree(a: Option<String>, b: Option<String>) -> bool {
    match (a, b) {
        (None, None) => true,
        (Some(x), Some(y)) => plain_path(x@) && plain_path(y@) ==> x@ == y@,
        _ => false,
    }
}

/// The launch settings agree as far as text shows: working directories are
/// compared as `dirs_agree` does, since equal paths may be spelled apart.
pub open spec fn launch_alike(a: ProcessConfig, b: ProcessConfig) -> bool {
    &&& a.command@ == b.command@
    &&& views(a.args@) == views(b.args@)
    &&& dirs_agree(a.working_dir, b.working_dir)
    &&& same_env(a.env, b.env)
    &&& same_text(a.stop_command, b.stop_command)
}

fn opt_text_eq(a: &Option<String>, b: &Option<String>) -> (r: bool)
    ensures
        r == same_text(*a, *b),
{
    match (a, b) {
        (None, None) => true,
        (Some(x), Some(y)) => *x == *y,
        _ => false,
    }
}

fn strings_eq(a: &Vec<String>, b: &Vec<String>) -> (r: bool)
    ensures
        r == (views(a@) == views(b@)),
{
    if a.len() != b.len() {
        assert(views(a@).len() != views(b@).len());
        return false;
    }
    let n = a.len();
    for i in 0..n
        invariant
            n == a@.len(),
            n == b@.len(),
            forall|j: int| 0 <= j < i ==> a@[j]@ == b@[j]@,
    {
        if !(a[i] == b[i]) {
            assert(views(a@)[i as int] != views(b@)[i as int]);
            return false;
        }
    }
    assert(views(a@) =~= views(b@));
    true
}

fn env_eq(a: &StrMap<String>, b: &StrMap<String>) -> (r: bool)
    ensures
        r == same_env(*a, *b),
{
    proof {
        use_type_invariant(a);
        use_type_invariant(b);
    }
    if a.len() != b.len() {
        proof {
            if same_env(*a, *b) {
                a.keys().unique_seq_to_set();
                b.keys().unique_seq_to_set();
                assert(a.to_map().dom() =~= a.keys().to_set());
                assert(b.to_map().dom() =~= b.keys().to_set());
            }
        }
        return false;
    }
    let n = a.len();
    for i in 0..n
        invariant
            n == a.keys().len(),
            n == b.keys().len(),
            a.well_formed(),
            b.well_formed(),
            forall|j: int| 0 <= j < i ==> #[trigger] b.keys().contains(a.keys()[j])
                && b.to_map()[a.keys()[j]]@ == a.values()[j]@,
    {
        let k = a.key_at(i);
        match b.get(k.as_str()) {
            Some(v) => {
                if !(*v == *a.value_at(i)) {
                    proof {
                        assert(a.keys().index_of(a.keys()[i as int]) == i) by {
                            a.keys().index_of_first_ensures(a.keys()[i as int]);
                        }
                        assert(a.to_map().dom().contains(k@));
                    }
                    return false;
                }
            },
            None => {
                assert(a.to_map().dom().contains(k@));
                return false;
            },
        }
    }
    proof {
        a.keys().unique_seq_to_set();
        b.keys().unique_seq_to_set();
        assert forall|k: Seq<char>| a.keys().contains(k) implies b.keys().contains(k) by {
            let j = a.keys().index_of(k);
            assert(b.keys().contains(a.keys()[j]));
        }
        assert(a.keys().to_set().subset_of(b.keys().to_set()));
        vstd::set_lib::lemma_subset_equality(a.keys().to_set(), b.keys().to_set());
        assert(a.to_map().dom() =~= b.to_map().dom());
        assert forall|k: Seq<char>| #[trigger] a.to_map().dom().contains(k)
            implies a.to_map()[k]@ == b.to_map()[k]@ by {
            let j = a.keys().index_of(k);
            assert(b.to_map()[a.keys()[j]]@ == a.values()[j]@);
        }
    }
    true
}

impl ProcessConfig {
    /// The command together with its arguments, as one line.
    pub fn full_command(&self) -> (r: String)
        ensures
            r@ == command_line(self.command@, views(self.args@)),
    {
        if self.args.len() == 0 {
            self.command.clone()
        } else {
            let mut s = self.command.clone();
            s.append(" ");
            let rest = join_strings(&self.args, " ");
            s.append(rest.as_str());
            s
        }
    }

    /// Whether two configurations launch the process the same way: command,
    /// arguments, working directory, environment and stop command agree.
    /// Fields such as `auto_start` or the restart policy do not count.
    pub fn runtime_fields_eq(&self, other: &Self) -> (r: bool)
        ensures
            r ==> launch_alike(*self, *other),
            same_runtime_fields(*self, *other) ==> r,
    {
        let wd = match (&self.working_dir, &other.working_dir) {
            (None, None) => true,
            (Some(a), Some(b)) => same_path(a.as_str(), b.as_str()),
            _ => false,
        };
        self.command == other.command && strings_eq(&self.args, &other.args) && wd
            && env_eq(&self.env, &other.env) && opt_text_eq(&self.stop_command, &other.stop_command)
    }

    pub fn validate(&self) -> (r: Result<(), GuguError>)
        ensures
            reports(r, config_problem(*self)),
            r is Ok <==> !is_blank(self.command@) && match self.health_check {
                Some(hc) => {
                    &&& match hc.check_type {
                        HealthCheckType::Tcp { port, .. } => port != 0,
                        HealthCheckType::Http { url } => !is_blank(url@),
                    }
                    &&& hc.interval_secs > 0
                    &&& hc.timeout_secs > 0
                },
                None => true,
            },
    {
        if blank(self.command.as_str()) {
            return config_error("command 不能为空");
        }
        if let Some(hc) = &self.health_check {
            return hc.validate();
        }
        Ok(())
    }
}


// ── Views ─────────────────────────────────────────────────────

/// The text of an optional string.
pub open spec fn opt_view(o: Option<String>) -> Option<Seq<char>> {
    match o {
        Some(s) => Some(s@),
        None => None,
    }
}

pub enum HealthCheckKind {
    Tcp { host: Option<Seq<char>>, port: u16 },
    Http { url: Seq<char> },
}

pub struct HealthCheckView {
    pub kind: HealthCheckKind,
    pub interval_secs: u64,
    pub timeout_secs: u64,
}

impl View for HealthCheckConfig {
    type V = HealthCheckView;

    open spec fn view(&self) -> HealthCheckView {
        HealthCheckView {
            kind: match self.check_type {
                HealthCheckType::Tcp { host, port } => HealthCheckKind::Tcp { host: opt_view(host), port },
                HealthCheckType::Http { url } => HealthCheckKind::Http { url: url@ },
            },
            interval_secs: self.interval_secs,
            timeout_secs: self.timeout_secs,
        }
    }
}

/// The environment table as a map from names to values.
pub open spec fn env_view(env: StrMap<String>) -> Map<Seq<char>, Seq<char>> {
    Map::new(|k: Seq<char>| env.to_map().dom().contains(k), |k: Seq<char>| env.to_map()[k]@)
}

/// A process configuration as plain text and numbers.
pub struct ProcessConfigView {
    pub command: Seq<char>,
    pub args: Seq<Seq<char>>,
    pub working_dir: Option<Seq<char>>,
    pub env: Map<Seq<char>, Seq<char>>,
    pub auto_start: bool,
    pub auto_restart: bool,
    pub max_restarts: u32,
    pub restart_delay_secs: u64,
    pub stop_command: Option<Seq<char>>,
    pub stop_timeout_secs: u64,
    pub health_check: Option<HealthCheckView>,
    pub unhealthy_restart: bool,
    pub depends_on: Seq<Seq<char>>,
    pub group: Option<Seq<char>>,
    pub max_log_size_mb: Option<u64>,
    pub stdout_log: Option<Seq<char>>,
    pub stderr_log: Option<Seq<char>>,
}

impl View for ProcessConfig {
    type V = ProcessConfigView;

    open spec fn view(&self) -> ProcessConfigView {
        ProcessConfigView {
            command: self.command@,
            args: views(self.args@),
            working_dir: opt_view(self.working_dir),
            env: env_view(self.env),
            auto_start: self.auto_start,
            auto_restart: self.auto_restart,
            max_restarts: self.max_restarts,
            restart_delay_secs: self.restart_delay_secs,
            stop_command: opt_view(self.stop_command),
            stop_timeout_secs: self.stop_timeout_secs,
            health_check: match self.health_check {
                Some(hc) => Some(hc@),
                None => None,
            },
            unhealthy_restart: self.unhealthy_restart,
            depends_on: views(self.depends_on@),
            group: opt_view(self.group),
            max_log_size_mb: self.max_log_size_mb,
            stdout_log: opt_view(self.stdout_log),
            stderr_log: opt_view(self.stderr_log),
        }
    }
}

/// A copy of an optional string.
pub fn copy_opt(o: &Option<String>) -> (r: Option<String>)
    ensures
        opt_view(r) == opt_view(*o),
{
    match o {
        Some(s) => Some(s.clone()),
        None => None,
    }
}

fn copy_strings(v: &Vec<String>) -> (r: Vec<String>)
    ensures
        views(r@) == views(v@),
{
    let r = v.clone();
    assert(views(r@) =~= views(v@)) by {
        assert forall|i: int| 0 <= i < v@.len() implies r@[i]@ == v@[i]@ by {
            assert(cloned::<String>(v[i], r[i]));
        }
    }
    r
}

fn copy_env(e: &StrMap<String>) -> (r: StrMap<String>)
    ensures
        env_view(r) == env_view(*e),
{
    let r = e.clone();
    proof {
        use_type_invariant(e);
        use_type_invariant(&r);
        assert forall|i: int| 0 <= i < e.values().len() implies r.values()[i]@ == e.values()[i]@ by {
            assert(cloned::<String>(e.values()[i], r.values()[i]));
        }
        assert(r.to_map().dom() =~= e.to_map().dom());
        assert forall|k: Seq<char>| e.to_map().dom().contains(k) implies r.to_map()[k]@ == e.to_map()[k]@ by {
            let j = e.keys().index_of(k);
            assert(e.keys().contains(k));
            assert(0 <= j < e.keys().len()) by { e.keys().index_of_first_ensures(k); }
            assert(r.values()[j]@ == e.values()[j]@);
        }
        assert(env_view(r) =~= env_view(*e));
    }
    r
}

impl HealthCheckConfig {
    /// A copy of the health check settings.
    pub fn duplicate(&self) -> (r: HealthCheckConfig)
        ensures
            r@ == self@,
    {
        HealthCheckConfig {
            check_type: match &self.check_type {
                HealthCheckType::Tcp { host, port } => HealthCheckType::Tcp { host: copy_opt(host), port: *port },
                HealthCheckType::Http { url } => HealthCheckType::Http { url: url.clone() },
            },
            interval_secs: self.interval_secs,
            timeout_secs: self.timeout_secs,
        }
    }
}

impl ProcessConfig {
    /// A copy of the configuration.
    pub fn duplicate(&self) -> (r: ProcessConfig)
        ensures
            r@ == self@,
    {
        ProcessConfig {
            command: self.command.clone(),
            args: copy_strings(&self.args),
            working_dir: copy_opt(&self.working_dir),
            env: copy_env(&self.env),
            auto_start: self.auto_start,
            auto_restart: self.auto_restart,
            max_restarts: self.max_restarts,
            restart_delay_secs: self.restart_delay_secs,
            stop_command: copy_opt(&self.stop_command),
            stop_timeout_secs: self.stop_timeout_secs,
            health_check: match &self.health_check {
                Some(hc) => Some(hc.duplicate()),
                None => None,
            },
            unhealthy_restart: self.unhealthy_restart,
            depends_on: copy_strings(&self.depends_on),
            group: copy_opt(&self.group),
            max_log_size_mb: self.max_log_size_mb,
            stdout_log: copy_opt(&self.stdout_log),
            stderr_log: copy_opt(&self.stderr_log),
        }
    }
}


// ── Path normalisation and the listen address ─────────────────

/// An optional path with its backslashes turned into forward slashes.
pub open spec fn forward_opt(p: Option<Seq<char>>) -> Option<Seq<char>> {
    match p {
        Some(s) => Some(forward_slashes(s)),
        None => None,
    }
}

/// The configuration with its working directory and log paths written with
/// forward slashes.
pub open spec fn normalized(v: ProcessConfigView) -> ProcessConfigView {
    ProcessConfigView {
        working_dir: forward_opt(v.working_dir),
        stdout_log: forward_opt(v.stdout_log),
        stderr_log: forward_opt(v.stderr_log),
        ..v
    }
}

fn forward_opt_exec(p: &Option<String>) -> (r: Option<String>)
    ensures
        opt_view(r) == forward_opt(opt_view(*p)),
{
    match p {
        Some(s) => Some(path_to_forward_slashes(s.as_str())),
        None => None,
    }
}

impl ProcessConfig {
    pub fn normalize_paths(&mut self)
        ensures
            final(self)@ == normalized(old(self)@),
    {
        let wd = forward_opt_exec(&self.working_dir);
        let out = forward_opt_exec(&self.stdout_log);
        let err = forward_opt_exec(&self.stderr_log);
        self.working_dir = wd;
        self.stdout_log = out;
        self.stderr_log = err;
        assert(self@ =~= normalized(old(self)@));
    }
}

/// The address text when one is configured, else the loopback address.
pub open spec fn addr_or_loopback(addr: Option<String>) -> Seq<char> {
    match addr {
        Some(a) => a@,
        None => "127.0.0.1"@,
    }
}

/// The configured port, else 9090.
pub open spec fn port_or_default(port: Option<u16>) -> nat {
    match port {
        Some(p) => p as nat,
        None => 9090,
    }
}

impl AppConfig {
    /// Every process configuration with its paths written with forward slashes.
    pub fn normalize_paths(&mut self)
        ensures
            final(self).processes.keys() == old(self).processes.keys(),
            final(self).processes.values().len() == old(self).processes.values().len(),
            forall|i: int| 0 <= i < old(self).processes.values().len()
                ==> (#[trigger] final(self).processes.values()[i])@ == normalized(old(self).processes.values()[i]@),
    {
        let mut taken: StrMap<ProcessConfig> = StrMap::new();
        std::mem::swap(&mut taken, &mut self.processes);
        proof { use_type_invariant(&taken); }
        let ghost keys = taken.keys();
        let ghost vals = taken.values();
        let entries = taken.into_entries();
        let mut out: Vec<(String, ProcessConfig)> = Vec::new();
        let n = entries.len();
        let mut rest = entries;
        for i in 0..n
            invariant
                n == keys.len(),
                n == vals.len(),
                rest@.len() == n - i,
                forall|j: int| 0 <= j < n - i ==> (#[trigger] rest@[j]).0@ == keys[i + j] && rest@[j].1 == vals[i + j],
                out@.len() == i,
                forall|j: int| 0 <= j < i ==> (#[trigger] out@[j]).0@ == keys[j] && out@[j].1@ == normalized(vals[j]@),
        {
            let (k, mut pc) = rest.remove(0);
            pc.normalize_paths();
            out.push((k, pc));
        }
        proof {
            assert(out@.map_values(|e: (String, ProcessConfig)| e.0@) =~= keys);
        }
        self.processes = StrMap::from_entries(out);
    }

    /// The `address:port` the web service listens on.
    pub fn server_addr(&self) -> (r: String)
        ensures
            r@ == addr_or_loopback(self.daemon.web.addr) + ":"@ + crate::text::decimal(
                port_or_default(self.daemon.web.port),
            ),
    {
        let mut s = match &self.daemon.web.addr {
            Some(a) => a.clone(),
            None => String::from_str("127.0.0.1"),
        };
        s.append(":");
        let port: u16 = match self.daemon.web.port {
            Some(p) => p,
            None => 9090,
        };
        crate::text::push_decimal(&mut s, port as u64);
        s
    }
}


/// Turning backslashes into slashes a second time changes nothing: paths
/// that were normalized once stay as they are.
pub proof fn lemma_forward_slashes_idempotent(path: Seq<char>)
    ensures
        forward_slashes(forward_slashes(path)) == forward_slashes(path),
{
    assert(forward_slashes(forward_slashes(path)) =~= forward_slashes(path));
}

/// Every configuration launches as itself: a configuration compared with
/// itself has the same launch settings.
pub proof fn lemma_same_runtime_fields_reflexive(c: ProcessConfig)
    ensures
        same_runtime_fields(c, c),
{
}

} // verus!
