use vstd::prelude::*;

use crate::text::chars_of;
use crate::text::string_from_chars;
use crate::text::str_eq;
use crate::text::views;
use crate::process::ProcessInfo;
use crate::process::ProcessStatus;
use crate::process::LogEntry;
use crate::process::format_utc;
use crate::process::utc_text;
use crate::process::LogStream;
use crate::error::GuguError;
use crate::error::error_text;
use crate::config::forward_slashes;
use crate::config::without_unc_prefix;
use crate::config::path_to_forward_slashes;
use crate::config::strip_unc_prefix;
use crate::config::path_join;
use crate::config::path_parent;
use crate::config::path_separator;
use crate::config::plain_name;
use crate::config::joinable;
use crate::config::clear_parent;
use crate::config::parent_part;
use crate::config::unc_long_prefix;
use crate::config::long_prefix;

verus! {

// ── Response bodies ───────────────────────────────────────────

/// Body of a successful request.
pub struct ApiSuccess {
    pub message: String,
}

/// Body of a refused request.
pub struct ApiError {
    pub error: String,
}

impl ApiError {
    /// An error body carrying `msg`.
    pub fn new(msg: &str) -> (r: ApiError)
        ensures
            r.error@ == msg@,
    {
        ApiError { error: msg.to_string() }
    }
}

impl ApiSuccess {
    /// A success body carrying `msg`.
    pub fn new(msg: &str) -> (r: ApiSuccess)
        ensures
            r.message@ == msg@,
    {
        ApiSuccess { message: msg.to_string() }
    }
}

/// How many log lines a log request returns when it names no count.
pub fn default_lines() -> (n: usize)
    ensures
        n == 100,
{
    100
}

// ── Authentication ────────────────────────────────────────────

/// Byte `i` of `s`, or zero past its end.
pub open spec fn byte_or_zero(s: Seq<u8>, i: int) -> u8 {
    if 0 <= i < s.len() {
        s[i]
    } else {
        0
    }
}

/// Compares two strings in time that depends on their lengths only, not on
/// where they first differ.
pub fn constant_time_eq(a: &str, b: &str) -> (r: bool)
    ensures
        r == (a@ == b@),
{
    let a_bytes = a.as_bytes();
    let b_bytes = b.as_bytes();
    let same_len = a_bytes.len() == b_bytes.len();
    let mut result: u8 = if same_len { 0 } else { 0xff };
    let max_len = if a_bytes.len() < b_bytes.len() { b_bytes.len() } else { a_bytes.len() };
    let ghost sa = a_bytes@;
    let ghost sb = b_bytes@;
    for i in 0..max_len
        invariant
            sa == a_bytes@,
            sb == b_bytes@,
            max_len == if sa.len() < sb.len() { sb.len() } else { sa.len() },
            (result == 0) == (sa.len() == sb.len() && forall|j: int|
                0 <= j < i ==> byte_or_zero(sa, j) == byte_or_zero(sb, j)),
    {
        let x: u8 = if i < a_bytes.len() { a_bytes[i] } else { 0 };
        let y: u8 = if i < b_bytes.len() { b_bytes[i] } else { 0 };
        assert(x == byte_or_zero(sa, i as int));
        assert(y == byte_or_zero(sb, i as int));
        let old_result = result;
        result = result | (x ^ y);
        assert((old_result | (x ^ y)) == 0 <==> (old_result == 0 && x == y)) by (bit_vector);
        assert forall|j: int| 0 <= j < i + 1 && (result == 0) implies byte_or_zero(sa, j)
            == byte_or_zero(sb, j) by {
            if j < i {
            }
        }
    }
    proof {
        if result == 0 {
            assert(sa =~= sb) by {
                assert forall|j: int| 0 <= j < sa.len() implies sa[j] == sb[j] by {
                    assert(byte_or_zero(sa, j) == byte_or_zero(sb, j));
                }
            }
            vstd::utf8::encode_utf8_decode_utf8(a@);
            vstd::utf8::encode_utf8_decode_utf8(b@);
        }
        if a@ == b@ {
            assert(sa == sb);
            assert forall|j: int| 0 <= j < max_len implies byte_or_zero(sa, j) == byte_or_zero(sb, j) by {
            }
        }
    }
    result == 0
}


/// `s` with the leading `p` taken off, when `s` starts with `p`.
pub open spec fn strip(s: Seq<char>, p: Seq<char>) -> Option<Seq<char>> {
    if p.len() <= s.len() && s.take(p.len() as int) == p {
        Some(s.skip(p.len() as int))
    } else {
        None
    }
}

/// What remains of `s` after the prefix `p`, when `s` starts with `p`.
pub fn strip_prefix_str(s: &str, p: &str) -> (r: Option<String>)
    ensures
        match r {
            Some(rest) => strip(s@, p@) == Some(rest@),
            None => strip(s@, p@) is None,
        },
{
    let sv = chars_of(s);
    let pv = chars_of(p);
    if pv.len() > sv.len() {
        return None;
    }
    let mut i: usize = 0;
    while i < pv.len()
        invariant
            pv@ == p@,
            sv@ == s@,
            pv.len() <= sv.len(),
            i <= pv.len(),
            forall|j: int| 0 <= j < i ==> sv@[j] == pv@[j],
        decreases pv.len() - i,
    {
        if sv[i] != pv[i] {
            assert(s@.take(p@.len() as int)[i as int] != p@[i as int]);
            return None;
        }
        i = i + 1;
    }
    assert(s@.take(p@.len() as int) =~= p@);
    let mut rest: Vec<char> = Vec::new();
    let mut k: usize = pv.len();
    while k < sv.len()
        invariant
            pv@ == p@,
            sv@ == s@,
            pv.len() <= k <= sv.len(),
            rest@ == s@.subrange(p@.len() as int, k as int),
        decreases sv.len() - k,
    {
        rest.push(sv[k]);
        assert(s@.subrange(p@.len() as int, k + 1) =~= s@.subrange(p@.len() as int, k as int).push(s@[k as int]));
        k = k + 1;
    }
    assert(s@.subrange(p@.len() as int, s@.len() as int) =~= s@.skip(p@.len() as int));
    Some(string_from_chars(rest.as_slice()))
}

/// The pieces of `s` between occurrences of `sep`, as `str::split` yields
/// them (an empty string gives one empty piece).
pub open spec fn split_on(s: Seq<char>, sep: char) -> Seq<Seq<char>>
    decreases s.len(),
{
    if s.len() == 0 {
        seq![Seq::<char>::empty()]
    } else {
        let init = split_on(s.drop_last(), sep);
        if s.last() == sep {
            init.push(Seq::<char>::empty())
        } else {
            init.update(init.len() - 1, init.last().push(s.last()))
        }
    }
}

/// The request carries `key` as a bearer token in its `Authorization` header.
pub open spec fn bearer_matches(authorization: Option<Seq<char>>, key: Seq<char>) -> bool {
    match authorization {
        Some(h) => strip(h, "Bearer "@) == Some(key),
        None => false,
    }
}

/// One `name=value` pair of a query is the pair `token=<key>`.
pub open spec fn carries_token(pair: Seq<char>, key: Seq<char>) -> bool {
    strip(pair, "token="@) == Some(key)
}

/// The query string `q` holds a pair `token=<key>`.
pub open spec fn has_token(q: Seq<char>, key: Seq<char>) -> bool {
    exists|k: int| 0 <= k < split_on(q, '&').len() && #[trigger] carries_token(split_on(q, '&')[k], key)
}

/// The request has a query string, and it holds a pair `token=<key>`.
pub open spec fn query_matches(query: Option<Seq<char>>, key: Seq<char>) -> bool {
    match query {
        Some(q) => has_token(q, key),
        None => false,
    }
}

/// Whether a request is let through: always when no key (or an empty one)
/// is configured, else when it presents the key as a bearer token or as a
/// `token` query pair.
pub open spec fn admits(
    api_key: Option<Seq<char>>,
    authorization: Option<Seq<char>>,
    query: Option<Seq<char>>,
) -> bool {
    match api_key {
        None => true,
        Some(key) => key.len() == 0 || bearer_matches(authorization, key) || query_matches(
            query,
            key,
        ),
    }
}

/// The view of an optional string slice.
pub open spec fn opt_str(s: Option<&str>) -> Option<Seq<char>> {
    match s {
        Some(x) => Some(x@),
        None => None,
    }
}

fn pair_carries(pair: &Vec<char>, key: &str) -> (r: bool)
    ensures
        r == carries_token(pair@, key@),
{
    let text = string_from_chars(pair.as_slice());
    match strip_prefix_str(text.as_str(), "token=") {
        Some(token) => constant_time_eq(token.as_str(), key),
        None => false,
    }
}

fn query_carries(query: &str, key: &str) -> (r: bool)
    ensures
        r == has_token(query@, key@),
{
    let qs = chars_of(query);
    let n = qs.len();
    let mut cur: Vec<char> = Vec::new();
    let mut found = false;
    let ghost mut done: Seq<Seq<char>> = Seq::empty();
    for i in 0..n
        invariant
            n == qs@.len(),
            qs@ == query@,
            split_on(qs@.take(i as int), '&') == done.push(cur@),
            found == exists|k: int| 0 <= k < done.len() && #[trigger] carries_token(done[k], key@),
    {
        let c = qs[i];
        assert(qs@.take(i + 1).drop_last() =~= qs@.take(i as int));
        assert(qs@.take(i + 1).last() == c);
        if c == '&' {
            if pair_carries(&cur, key) {
                found = true;
            }
            proof {
                let old_done = done;
                done = done.push(cur@);
                assert forall|k: int| 0 <= k < old_done.len() implies done[k] == old_done[k] by {}
                if carries_token(cur@, key@) {
                    assert(carries_token(done[old_done.len() as int], key@));
                }
            }
            cur = Vec::new();
            assert(split_on(qs@.take(i + 1), '&') =~= done.push(cur@));
        } else {
            cur.push(c);
            assert(split_on(qs@.take(i + 1), '&') =~= done.push(cur@));
        }
    }
    let last = pair_carries(&cur, key);
    proof {
        assert(qs@.take(n as int) =~= qs@);
        let all = done.push(cur@);
        assert(split_on(query@, '&') == all);
        if found {
            let k = choose|k: int| 0 <= k < done.len() && #[trigger] carries_token(done[k], key@);
            assert(all[k] == done[k]);
            assert(carries_token(split_on(query@, '&')[k], key@));
            assert(0 <= k < split_on(query@, '&').len());
            assert(has_token(query@, key@));
        }
        if last {
            assert(all[done.len() as int] == cur@);
            assert(carries_token(split_on(query@, '&')[done.len() as int], key@));
            assert(has_token(query@, key@));
        }
        if has_token(query@, key@) {
            let k = choose|k: int|
                0 <= k < split_on(query@, '&').len() && #[trigger] carries_token(split_on(query@, '&')[k], key@);
            if k < done.len() {
                assert(all[k] == done[k]);
                assert(carries_token(done[k], key@));
            } else {
                assert(all[k] == cur@);
            }
        }
        assert(found || last ==> has_token(query@, key@));
    }
    found || last
}

/// Whether a request may pass the key check.
pub fn is_authorized(api_key: Option<&str>, authorization: Option<&str>, query: Option<&str>) -> (r: bool)
    ensures
        r == admits(opt_str(api_key), opt_str(authorization), opt_str(query)),
{
    let key = match api_key {
        None => {
            return true;
        },
        Some(k) => k,
    };
    if key.is_empty() {
        return true;
    }
    if let Some(header) = authorization {
        if let Some(token) = strip_prefix_str(header, "Bearer ") {
            if constant_time_eq(token.as_str(), key) {
                return true;
            }
        }
    }
    if let Some(q) = query {
        if query_carries(q, key) {
            return true;
        }
    }
    false
}


// ── Statistics ────────────────────────────────────────────────

/// Process counts by status.
pub struct StatsResponse {
    pub total: usize,
    pub running: usize,
    pub stopped: usize,
    pub failed: usize,
}

/// How many of `ps` have a status that satisfies `pred`.
pub open spec fn count_status(ps: Seq<ProcessInfo>, pred: spec_fn(ProcessStatus) -> bool) -> nat
    decreases ps.len(),
{
    if ps.len() == 0 {
        0
    } else {
        count_status(ps.drop_last(), pred) + if pred(ps.last().status) {
            1nat
        } else {
            0nat
        }
    }
}

pub open spec fn running_status(s: ProcessStatus) -> bool {
    s is Running
}

pub open spec fn stopped_status(s: ProcessStatus) -> bool {
    s is Stopped
}

pub open spec fn failed_status(s: ProcessStatus) -> bool {
    s is Failed
}

proof fn lemma_count_status_bound(ps: Seq<ProcessInfo>, pred: spec_fn(ProcessStatus) -> bool)
    ensures
        count_status(ps, pred) <= ps.len(),
    decreases ps.len(),
{
    if ps.len() > 0 {
        lemma_count_status_bound(ps.drop_last(), pred);
    }
}

/// Counts the processes that are running, stopped and failed.
pub fn process_stats(processes: &[ProcessInfo]) -> (r: StatsResponse)
    ensures
        r.total == processes@.len(),
        r.running == count_status(processes@, |s: ProcessStatus| running_status(s)),
        r.stopped == count_status(processes@, |s: ProcessStatus| stopped_status(s)),
        r.failed == count_status(processes@, |s: ProcessStatus| failed_status(s)),
{
    let ghost run = |s: ProcessStatus| running_status(s);
    let ghost stop = |s: ProcessStatus| stopped_status(s);
    let ghost fail = |s: ProcessStatus| failed_status(s);
    let mut running: usize = 0;
    let mut stopped: usize = 0;
    let mut failed: usize = 0;
    let n = processes.len();
    for i in 0..n
        invariant
            n == processes@.len(),
            run == (|s: ProcessStatus| running_status(s)),
            stop == (|s: ProcessStatus| stopped_status(s)),
            fail == (|s: ProcessStatus| failed_status(s)),
            running == count_status(processes@.take(i as int), run),
            stopped == count_status(processes@.take(i as int), stop),
            failed == count_status(processes@.take(i as int), fail),
    {
        proof {
            lemma_count_status_bound(processes@.take(i as int), run);
            lemma_count_status_bound(processes@.take(i as int), stop);
            lemma_count_status_bound(processes@.take(i as int), fail);
        }
        assert(processes@.take(i + 1).drop_last() =~= processes@.take(i as int));
        assert(processes@.take(i + 1).last() == processes@[i as int]);
        let st = &processes[i].status;
        if let ProcessStatus::Running = st {
            running = running + 1;
        }
        if let ProcessStatus::Stopped = st {
            stopped = stopped + 1;
        }
        if let ProcessStatus::Failed(_) = st {
            failed = failed + 1;
        }
    }
    assert(processes@.take(n as int) =~= processes@);
    StatsResponse { total: n, running, stopped, failed }
}

// ── Text order ────────────────────────────────────────────────

/// `a` comes strictly before `b` in dictionary order of characters (the
/// order of `String`'s `Ord`).
pub open spec fn lex_less(a: Seq<char>, b: Seq<char>) -> bool
    decreases a.len(),
{
    if b.len() == 0 {
        false
    } else if a.len() == 0 {
        true
    } else if a[0] != b[0] {
        a[0] < b[0]
    } else {
        lex_less(a.drop_first(), b.drop_first())
    }
}

/// No text comes before itself.
pub proof fn lemma_lex_irreflexive(a: Seq<char>)
    ensures
        !lex_less(a, a),
    decreases a.len(),
{
    if a.len() > 0 {
        lemma_lex_irreflexive(a.drop_first());
    }
}

/// The order is transitive.
pub proof fn lemma_lex_transitive(a: Seq<char>, b: Seq<char>, c: Seq<char>)
    requires
        lex_less(a, b),
        lex_less(b, c),
    ensures
        lex_less(a, c),
    decreases a.len(),
{
    if a.len() > 0 && b.len() > 0 && c.len() > 0 && a[0] == b[0] && b[0] == c[0] {
        lemma_lex_transitive(a.drop_first(), b.drop_first(), c.drop_first());
    }
}

/// Of two different texts, one comes first.
pub proof fn lemma_lex_total(a: Seq<char>, b: Seq<char>)
    requires
        a != b,
    ensures
        lex_less(a, b) || lex_less(b, a),
    decreases a.len(),
{
    if a.len() > 0 && b.len() > 0 {
        if a[0] == b[0] {
            if a.drop_first() == b.drop_first() {
                assert(a =~= seq![a[0]] + a.drop_first());
                assert(b =~= seq![b[0]] + b.drop_first());
            }
            lemma_lex_total(a.drop_first(), b.drop_first());
        }
    } else if a.len() == 0 && b.len() == 0 {
        assert(a =~= b);
    }
}

/// Of two texts, at most one comes before the other.
pub proof fn lemma_lex_asymmetric(a: Seq<char>, b: Seq<char>)
    requires
        lex_less(a, b),
    ensures
        !lex_less(b, a),
{
    if lex_less(b, a) {
        lemma_lex_transitive(a, b, a);
        lemma_lex_irreflexive(a);
    }
}

/// Dictionary order of two strings.
pub fn str_less(a: &str, b: &str) -> (r: bool)
    ensures
        r == lex_less(a@, b@),
{
    let av = chars_of(a);
    let bv = chars_of(b);
    let mut i: usize = 0;
    assert(a@.skip(0) =~= a@);
    assert(b@.skip(0) =~= b@);
    while i < av.len() && i < bv.len()
        invariant
            av@ == a@,
            bv@ == b@,
            i <= av.len(),
            i <= bv.len(),
            lex_less(a@, b@) == lex_less(a@.skip(i as int), b@.skip(i as int)),
        decreases av.len() - i,
    {
        let x = av[i];
        let y = bv[i];
        assert(a@.skip(i as int)[0] == x);
        assert(b@.skip(i as int)[0] == y);
        if x != y {
            return x < y;
        }
        assert(a@.skip(i as int).drop_first() =~= a@.skip(i + 1));
        assert(b@.skip(i as int).drop_first() =~= b@.skip(i + 1));
        i = i + 1;
    }
    i < bv.len() && i == av.len()
}

// ── Process groups ────────────────────────────────────────────

/// A named group and the names of its processes.
pub struct GroupInfo {
    pub name: String,
    pub processes: Vec<String>,
}

/// `p` belongs to the group `g`.
pub open spec fn in_group(p: ProcessInfo, g: Seq<char>) -> bool {
    match p.group {
        Some(x) => x@ == g,
        None => false,
    }
}

/// The names of the members of group `g`, in the order of `ps`.
pub open spec fn member_names(ps: Seq<ProcessInfo>, g: Seq<char>) -> Seq<Seq<char>>
    decreases ps.len(),
{
    if ps.len() == 0 {
        Seq::empty()
    } else if in_group(ps.last(), g) {
        member_names(ps.drop_last(), g).push(ps.last().name@)
    } else {
        member_names(ps.drop_last(), g)
    }
}

/// Some process of `ps` belongs to group `g`.
pub open spec fn has_group(ps: Seq<ProcessInfo>, g: Seq<char>) -> bool {
    exists|i: int| 0 <= i < ps.len() && #[trigger] in_group(ps[i], g)
}

/// The names of the members of `group`, in the order of `processes`.
pub fn group_members(processes: &[ProcessInfo], group: &str) -> (r: Vec<String>)
    ensures
        views(r@) == member_names(processes@, group@),
{
    let mut r: Vec<String> = Vec::new();
    let n = processes.len();
    for i in 0..n
        invariant
            n == processes@.len(),
            views(r@) == member_names(processes@.take(i as int), group@),
    {
        assert(processes@.take(i + 1).drop_last() =~= processes@.take(i as int));
        assert(processes@.take(i + 1).last() == processes@[i as int]);
        let p = &processes[i];
        let member = match &p.group {
            Some(g) => str_eq(g.as_str(), group),
            None => false,
        };
        if member {
            let ghost before = r@;
            r.push(p.name.clone());
            assert(views(r@) =~= views(before).push(p.name@));
        }
    }
    assert(processes@.take(n as int) =~= processes@);
    r
}

/// `names` is in strictly increasing dictionary order.
pub open spec fn strictly_sorted(names: Seq<Seq<char>>) -> bool {
    forall|i: int, j: int| 0 <= i < j < names.len() ==> lex_less(#[trigger] names[i], #[trigger] names[j])
}

/// Adds `name` to a strictly sorted list, unless it is there already.
fn insert_sorted(names: &mut Vec<String>, name: &str)
    requires
        strictly_sorted(views(old(names)@)),
    ensures
        strictly_sorted(views(final(names)@)),
        views(final(names)@).to_set() == views(old(names)@).to_set().insert(name@),
{
    let ghost old_v = views(names@);
    let n = names.len();
    let mut j: usize = 0;
    while j < n && str_less(names[j].as_str(), name)
        invariant
            n == names.len(),
            j <= n,
            views(names@) == old_v,
            strictly_sorted(old_v),
            forall|i: int| 0 <= i < j ==> lex_less(#[trigger] old_v[i], name@),
        decreases n - j,
    {
        j = j + 1;
    }
    if j < n && str_eq(names[j].as_str(), name) {
        assert(old_v.to_set().insert(name@) =~= old_v.to_set()) by {
            assert(old_v[j as int] == name@);
            assert(old_v.contains(name@));
        }
        return;
    }
    proof {
        if j < n {
            lemma_lex_total(name@, old_v[j as int]);
        }
        assert forall|k: int| j <= k < n implies lex_less(name@, #[trigger] old_v[k]) by {
            if j < k {
                lemma_lex_transitive(name@, old_v[j as int], old_v[k]);
            }
        }
    }
    names.insert(j, name.to_string());
    proof {
        let new_v = views(names@);
        assert(new_v =~= old_v.insert(j as int, name@));
        assert forall|a: int, b: int| 0 <= a < b < new_v.len() implies lex_less(
            #[trigger] new_v[a],
            #[trigger] new_v[b],
        ) by {
            if b < j {
            } else if b == j {
            } else if a < j {
                assert(new_v[b] == old_v[b - 1]);
                assert(lex_less(name@, old_v[b - 1]));
                lemma_lex_transitive(old_v[a], name@, old_v[b - 1]);
            } else if a == j {
                assert(new_v[b] == old_v[b - 1]);
                assert(lex_less(name@, old_v[b - 1]));
            } else {
                assert(new_v[a] == old_v[a - 1]);
                assert(new_v[b] == old_v[b - 1]);
            }
        }
        assert(new_v.to_set() =~= old_v.to_set().insert(name@)) by {
            assert forall|x: Seq<char>| new_v.to_set().contains(x) <==> old_v.to_set().insert(
                name@,
            ).contains(x) by {
                if new_v.contains(x) {
                    let k = choose|k: int| 0 <= k < new_v.len() && new_v[k] == x;
                    if k < j {
                        assert(old_v[k] == x);
                    } else if k > j {
                        assert(old_v[k - 1] == x);
                    }
                }
                if old_v.contains(x) {
                    let k = choose|k: int| 0 <= k < old_v.len() && old_v[k] == x;
                    if k < j {
                        assert(new_v[k] == x);
                    } else {
                        assert(new_v[k + 1] == x);
                    }
                }
                if x == name@ {
                    assert(new_v[j as int] == x);
                }
            }
        }
    }
}

/// The groups that the processes belong to, in dictionary order of their
/// names, each with the names of its members in the order of `processes`.
pub fn list_groups(processes: &[ProcessInfo]) -> (r: Vec<GroupInfo>)
    ensures
        forall|i: int, j: int| 0 <= i < j < r@.len() ==> lex_less(#[trigger] r@[i].name@, #[trigger] r@[j].name@),
        forall|g: Seq<char>| has_group(processes@, g) <==> exists|i: int| 0 <= i < r@.len() && #[trigger] r@[i].name@ == g,
        forall|i: int| 0 <= i < r@.len() ==> views(#[trigger] r@[i].processes@) == member_names(processes@, r@[i].name@),
{
    let mut names: Vec<String> = Vec::new();
    let n = processes.len();
    for i in 0..n
        invariant
            n == processes@.len(),
            strictly_sorted(views(names@)),
            forall|g: Seq<char>| has_group(processes@.take(i as int), g) <==> views(names@).to_set().contains(g),
    {
        let ghost before = views(names@);
        if let Some(g) = &processes[i].group {
            insert_sorted(&mut names, g.as_str());
        }
        proof {
            let pre = processes@.take(i as int);
            let post = processes@.take(i + 1);
            assert forall|g: Seq<char>| has_group(post, g) <==> views(names@).to_set().contains(g) by {
                if has_group(post, g) {
                    let k = choose|k: int| 0 <= k < post.len() && #[trigger] in_group(post[k], g);
                    if k < i {
                        assert(pre[k] == post[k]);
                        assert(has_group(pre, g));
                    }
                }
                if has_group(pre, g) {
                    let k = choose|k: int| 0 <= k < pre.len() && #[trigger] in_group(pre[k], g);
                    assert(post[k] == pre[k]);
                    assert(has_group(post, g));
                }
                if in_group(post[i as int], g) {
                    assert(has_group(post, g));
                }
            }
        }
    }
    assert(processes@.take(n as int) =~= processes@);
    let mut r: Vec<GroupInfo> = Vec::new();
    let m = names.len();
    for k in 0..m
        invariant
            m == names.len(),
            r@.len() == k,
            forall|i: int| 0 <= i < k ==> #[trigger] r@[i].name@ == names@[i]@,
            forall|i: int| 0 <= i < k ==> views(#[trigger] r@[i].processes@) == member_names(processes@, r@[i].name@),
    {
        let members = group_members(processes, names[k].as_str());
        let name = names[k].clone();
        assert(name@ == names@[k as int]@);
        let ghost before = r@;
        r.push(GroupInfo { name, processes: members });
        assert(r@[k as int].name@ == names@[k as int]@);
        assert forall|i: int| 0 <= i < k implies #[trigger] r@[i].name@ == names@[i]@ by {
            assert(r@[i] == before[i]);
            assert(before[i].name@ == names@[i]@);
        }
        assert forall|i: int| 0 <= i < k + 1 implies views(#[trigger] r@[i].processes@) == member_names(processes@, r@[i].name@) by {
            if i < k {
                assert(r@[i] == before[i]);
            }
        }
    }
    proof {
        let nv = views(names@);
        assert forall|i: int, j: int| 0 <= i < j < r@.len() implies lex_less(
            #[trigger] r@[i].name@,
            #[trigger] r@[j].name@,
        ) by {
            assert(nv[i] == r@[i].name@);
            assert(nv[j] == r@[j].name@);
        }
        assert forall|g: Seq<char>| has_group(processes@, g) <==> exists|i: int|
            0 <= i < r@.len() && #[trigger] r@[i].name@ == g by {
            if has_group(processes@, g) {
                assert(nv.to_set().contains(g));
                let i = choose|i: int| 0 <= i < nv.len() && nv[i] == g;
                assert(r@[i].name@ == g);
            }
            if exists|i: int| 0 <= i < r@.len() && #[trigger] r@[i].name@ == g {
                let i = choose|i: int| 0 <= i < r@.len() && #[trigger] r@[i].name@ == g;
                assert(nv[i] == g);
                assert(nv.to_set().contains(g));
            }
        }
    }
    r
}


// ── Group actions ─────────────────────────────────────────────

/// What a group request does to each member.
#[derive(Clone, Copy, Debug, PartialEq, Eq)]
pub enum GroupAction {
    Start,
    Stop,
    Restart,
}

/// The outcome for one member of a group request.
pub struct BatchResult {
    pub process: String,
    pub success: bool,
    pub error: Option<String>,
}

/// The answer to a group request.
pub struct BatchResponse {
    pub message: String,
    pub total: usize,
    pub succeeded: usize,
    pub failed: usize,
    pub results: Vec<BatchResult>,
}

/// The members in the order the action visits them: a stop goes through
/// the group backwards, the other actions forwards.
pub open spec fn visit_order(members: Seq<Seq<char>>, action: GroupAction) -> Seq<Seq<char>> {
    match action {
        GroupAction::Stop => members.reverse(),
        _ => members,
    }
}

/// Orders the members of a group for `action`.
pub fn batch_order(members: Vec<String>, action: GroupAction) -> (r: Vec<String>)
    ensures
        views(r@) == visit_order(views(members@), action),
{
    match action {
        GroupAction::Stop => {
            let mut r: Vec<String> = Vec::new();
            let n = members.len();
            let mut k: usize = n;
            while k > 0
                invariant
                    n == members@.len(),
                    k <= n,
                    r@.len() == n - k,
                    forall|i: int| 0 <= i < r@.len() ==> #[trigger] r@[i] == members@[n - 1 - i],
                decreases k,
            {
                k = k - 1;
                r.push(members[k].clone());
            }
            assert(views(r@) =~= views(members@).reverse());
            r
        },
        _ => members,
    }
}

/// The closing word of a group answer.
pub open spec fn action_done(action: GroupAction) -> Seq<char> {
    match action {
        GroupAction::Start => "启动完成"@,
        GroupAction::Stop => "停止完成"@,
        GroupAction::Restart => "重启完成"@,
    }
}

/// The message of a group answer.
pub open spec fn batch_message(group: Seq<char>, action: GroupAction) -> Seq<char> {
    "进程组 '"@ + group + "' "@ + action_done(action)
}

/// How many results report success.
pub open spec fn count_success(rs: Seq<BatchResult>) -> nat
    decreases rs.len(),
{
    if rs.len() == 0 {
        0
    } else {
        count_success(rs.drop_last()) + if rs.last().success {
            1nat
        } else {
            0nat
        }
    }
}

proof fn lemma_count_success_bound(rs: Seq<BatchResult>)
    ensures
        count_success(rs) <= rs.len(),
    decreases rs.len(),
{
    if rs.len() > 0 {
        lemma_count_success_bound(rs.drop_last());
    }
}

/// The outcome of acting on one member.
pub fn batch_result(process: &str, outcome: &Result<(), GuguError>) -> (r: BatchResult)
    ensures
        r.process@ == process@,
        r.success == outcome is Ok,
        match outcome {
            Ok(_) => r.error is None,
            Err(e) => r.error is Some && (!(e is Io) ==> r.error->0@ == error_text(*e)) && (e is Io
                ==> error_text(*e).is_prefix_of(r.error->0@)),
        },
{
    match outcome {
        Ok(_) => BatchResult { process: process.to_string(), success: true, error: None },
        Err(e) => BatchResult {
            process: process.to_string(),
            success: false,
            error: Some(e.to_string()),
        },
    }
}

/// Sums up the outcomes of a group request.
pub fn batch_response(group: &str, action: GroupAction, results: Vec<BatchResult>) -> (r:
    BatchResponse)
    ensures
        r.message@ == batch_message(group@, action),
        r.total == results@.len(),
        r.succeeded == count_success(results@),
        r.failed == results@.len() - count_success(results@),
        r.results@ == results@,
{
    let n = results.len();
    let mut succeeded: usize = 0;
    for i in 0..n
        invariant
            n == results@.len(),
            succeeded == count_success(results@.take(i as int)),
    {
        proof {
            lemma_count_success_bound(results@.take(i as int));
        }
        assert(results@.take(i + 1).drop_last() =~= results@.take(i as int));
        assert(results@.take(i + 1).last() == results@[i as int]);
        if results[i].success {
            succeeded = succeeded + 1;
        }
    }
    assert(results@.take(n as int) =~= results@);
    proof {
        lemma_count_success_bound(results@);
    }
    let mut message = String::from_str("进程组 '");
    message.append(group);
    message.append("' ");
    match action {
        GroupAction::Start => message.append("启动完成"),
        GroupAction::Stop => message.append("停止完成"),
        GroupAction::Restart => message.append("重启完成"),
    }
    BatchResponse { message, total: n, succeeded, failed: n - succeeded, results }
}

// ── Log download ──────────────────────────────────────────────

/// A timestamp as a downloaded log shows it: UTC, `%Y-%m-%d %H:%M:%S%.3f`.
pub open spec fn log_time_text(micros: i64) -> Seq<char> {
    utc_text(micros, "%Y-%m-%d %H:%M:%S%.3f"@)
}

/// The tag of a stream in downloaded logs.
pub open spec fn stream_tag(s: LogStream) -> Seq<char> {
    match s {
        LogStream::Stdout => "OUT"@,
        LogStream::Stderr => "ERR"@,
    }
}

/// One line of a downloaded log.
pub open spec fn download_line(e: LogEntry) -> Seq<char> {
    "["@ + log_time_text(e.timestamp) + "] ["@ + stream_tag(e.stream) + "] "@ + e.line@ + "\n"@
}

/// A downloaded log: its lines one after another.
pub open spec fn download_text(es: Seq<LogEntry>) -> Seq<char>
    decreases es.len(),
{
    if es.len() == 0 {
        Seq::empty()
    } else {
        download_text(es.drop_last()) + download_line(es.last())
    }
}

/// Renders log entries as a plain-text file.
pub fn render_log_download(entries: &[LogEntry]) -> (r: String)
    ensures
        r@ == download_text(entries@),
{
    let mut content = String::new();
    let n = entries.len();
    for i in 0..n
        invariant
            n == entries@.len(),
            content@ == download_text(entries@.take(i as int)),
    {
        let e = &entries[i];
        let time = format_utc(e.timestamp, "%Y-%m-%d %H:%M:%S%.3f");
        let ghost before = content@;
        content.append("[");
        content.append(time.as_str());
        content.append("] [");
        match e.stream {
            LogStream::Stdout => content.append("OUT"),
            LogStream::Stderr => content.append("ERR"),
        }
        content.append("] ");
        content.append(e.line.as_str());
        content.append("\n");
        assert(entries@.take(i + 1).drop_last() =~= entries@.take(i as int));
        assert(entries@.take(i + 1).last() == entries@[i as int]);
        assert(content@ =~= before + download_line(entries@[i as int]));
    }
    assert(entries@.take(n as int) =~= entries@);
    content
}

/// The `Content-Disposition` value of a downloaded log of process `name`.
pub fn download_disposition(name: &str) -> (r: String)
    ensures
        r@ == "attachment; filename=\""@ + name@ + ".log\""@,
{
    let mut r = String::from_str("attachment; filename=\"");
    r.append(name);
    r.append(".log\"");
    r
}

/// The message that goes with a health check result.
pub fn health_message(healthy: bool) -> (r: String)
    ensures
        r@ == if healthy {
            "健康检查通过"@
        } else {
            "健康检查失败"@
        },
{
    if healthy {
        String::from_str("健康检查通过")
    } else {
        String::from_str("健康检查失败")
    }
}

/// A path as the file browser shows it: without a Windows extended-length
/// prefix and with forward slashes.
pub fn clean_path(path: &str) -> (r: String)
    ensures
        r@ == forward_slashes(without_unc_prefix(path@)),
{
    let stripped = strip_unc_prefix(path);
    path_to_forward_slashes(stripped.as_str())
}


// ── File browser ──────────────────────────────────────────────

/// One entry of a listed directory.
pub struct FsEntry {
    pub name: String,
    pub path: String,
    pub is_dir: bool,
}

/// A listed directory.
pub struct BrowseResponse {
    pub path: String,
    pub parent: Option<String>,
    pub entries: Vec<FsEntry>,
}

/// The lower-case form of a text, as `str::to_lowercase` gives it (Unicode
/// case mapping).
pub uninterp spec fn lowercase(s: Seq<char>) -> Seq<char>;

/// Trusted: calls `str::to_lowercase`, whose result depends on the text
/// alone; the contract names it.
#[verifier::external_body]
fn to_lowercase(s: &str) -> (r: String)
    ensures
        r@ == lowercase(s@),
{
    s.to_lowercase()
}

/// `a` is listed strictly before `b`: directories first, then by the
/// lower-case name in dictionary order.
pub open spec fn listed_before(a: FsEntry, b: FsEntry) -> bool {
    (a.is_dir && !b.is_dir) || (a.is_dir == b.is_dir && lex_less(lowercase(a.name@), lowercase(b.name@)))
}

/// `a` and `b` sort alike.
pub open spec fn same_rank(a: FsEntry, b: FsEntry) -> bool {
    a.is_dir == b.is_dir && lowercase(a.name@) == lowercase(b.name@)
}

/// `dst` is `src` sorted by `listed_before`, entries that sort alike keeping
/// their order; `perm[i]` is where `dst[i]` stood in `src`.
pub open spec fn stable_sorted(src: Seq<FsEntry>, dst: Seq<FsEntry>, perm: Seq<int>) -> bool {
    &&& perm.len() == src.len()
    &&& dst.len() == src.len()
    &&& forall|i: int| 0 <= i < perm.len() ==> 0 <= #[trigger] perm[i] < src.len()
    &&& forall|i: int, j: int| 0 <= i < j < perm.len() ==> #[trigger] perm[i] != #[trigger] perm[j]
    &&& forall|i: int| 0 <= i < dst.len() ==> #[trigger] dst[i] == src[perm[i]]
    &&& forall|i: int, j: int|
        0 <= i < j < dst.len() ==> !listed_before(#[trigger] dst[j], #[trigger] dst[i])
    &&& forall|i: int, j: int|
        0 <= i < j < dst.len() && same_rank(#[trigger] dst[i], #[trigger] dst[j]) ==> perm[i] < perm[j]
}

proof fn lemma_before_not_same(a: FsEntry, b: FsEntry)
    requires
        listed_before(a, b),
    ensures
        !same_rank(a, b),
        !listed_before(b, a),
{
    if a.is_dir == b.is_dir {
        lemma_lex_asymmetric(lowercase(a.name@), lowercase(b.name@));
        lemma_lex_irreflexive(lowercase(a.name@));
    }
}

proof fn lemma_before_chain(x: FsEntry, a: FsEntry, b: FsEntry)
    requires
        listed_before(x, a),
        !listed_before(b, a),
    ensures
        listed_before(x, b),
{
    if x.is_dir == a.is_dir && a.is_dir == b.is_dir {
        let (lx, la, lb) = (lowercase(x.name@), lowercase(a.name@), lowercase(b.name@));
        if la != lb {
            lemma_lex_total(la, lb);
            lemma_lex_transitive(lx, la, lb);
        }
    }
}

fn before_exec(a: &FsEntry, b: &FsEntry) -> (r: bool)
    ensures
        r == listed_before(*a, *b),
{
    if a.is_dir != b.is_dir {
        return a.is_dir;
    }
    let la = to_lowercase(a.name.as_str());
    let lb = to_lowercase(b.name.as_str());
    str_less(la.as_str(), lb.as_str())
}

/// Sorts directory entries: directories first, then by lower-case name;
/// entries that sort alike keep their order.
pub fn sort_entries(entries: Vec<FsEntry>) -> (r: Vec<FsEntry>)
    ensures
        exists|perm: Seq<int>| stable_sorted(entries@, r@, perm),
{
    let ghost src = entries@;
    let mut rest = entries;
    let mut dst: Vec<FsEntry> = Vec::new();
    let ghost mut perm: Seq<int> = Seq::empty();
    let n = rest.len();
    let mut k: usize = 0;
    while k < n
        invariant
            n == src.len(),
            k <= n,
            rest@ == src.skip(k as int),
            stable_sorted(src.take(k as int), dst@, perm),
        decreases n - k,
    {
        assert(rest@.len() > 0);
        let x = rest.remove(0);
        assert(x == src[k as int]);
        assert(rest@ =~= src.skip(k + 1));
        let m = dst.len();
        let mut j: usize = 0;
        while j < m && !before_exec(&x, &dst[j])
            invariant
                m == dst@.len(),
                j <= m,
                forall|i: int| 0 <= i < j ==> !listed_before(x, #[trigger] dst@[i]),
            decreases m - j,
        {
            j = j + 1;
        }
        let ghost old_dst = dst@;
        let ghost old_perm = perm;
        proof {
            assert forall|i: int| j <= i < m implies listed_before(x, #[trigger] old_dst[i]) by {
                if i > j {
                    lemma_before_chain(x, old_dst[j as int], old_dst[i]);
                }
            }
        }
        dst.insert(j, x);
        proof {
            perm = old_perm.insert(j as int, k as int);
            let pre = src.take(k as int);
            let post = src.take(k + 1);
            assert forall|i: int| 0 <= i < k implies post[i] == pre[i] by {}
            assert(post[k as int] == x);
            let d = dst@;
            assert(d =~= old_dst.insert(j as int, x));
            assert forall|i: int| 0 <= i < perm.len() implies 0 <= #[trigger] perm[i] < post.len() by {
                if i < j {
                    assert(perm[i] == old_perm[i]);
                } else if i > j {
                    assert(perm[i] == old_perm[i - 1]);
                }
            }
            assert forall|a: int, b: int| 0 <= a < b < perm.len() implies #[trigger] perm[a]
                != #[trigger] perm[b] by {
                if a < j && b > j {
                    assert(perm[b] == old_perm[b - 1]);
                } else if a > j {
                    assert(perm[a] == old_perm[a - 1]);
                    assert(perm[b] == old_perm[b - 1]);
                } else if b < j {
                } else if a == j {
                    assert(perm[b] == old_perm[b - 1]);
                    assert(old_perm[b - 1] < k);
                } else {
                    assert(old_perm[a] < k);
                }
            }
            assert forall|i: int| 0 <= i < d.len() implies #[trigger] d[i] == post[perm[i]] by {
                if i < j {
                    assert(d[i] == old_dst[i]);
                    assert(perm[i] == old_perm[i]);
                } else if i > j {
                    assert(d[i] == old_dst[i - 1]);
                    assert(perm[i] == old_perm[i - 1]);
                }
            }
            assert forall|a: int, b: int| 0 <= a < b < d.len() implies !listed_before(
                #[trigger] d[b],
                #[trigger] d[a],
            ) by {
                if b < j {
                } else if b == j {
                    assert(d[a] == old_dst[a]);
                } else if a == j {
                    assert(d[b] == old_dst[b - 1]);
                    lemma_before_not_same(x, old_dst[b - 1]);
                } else if a < j {
                    assert(d[a] == old_dst[a]);
                    assert(d[b] == old_dst[b - 1]);
                } else {
                    assert(d[a] == old_dst[a - 1]);
                    assert(d[b] == old_dst[b - 1]);
                }
            }
            assert forall|a: int, b: int| 0 <= a < b < d.len() && same_rank(
                #[trigger] d[a],
                #[trigger] d[b],
            ) implies perm[a] < perm[b] by {
                if b < j {
                } else if b == j {
                    assert(perm[a] == old_perm[a]);
                    assert(old_perm[a] < k);
                } else if a == j {
                    assert(d[b] == old_dst[b - 1]);
                    lemma_before_not_same(x, old_dst[b - 1]);
                } else if a < j {
                    assert(d[a] == old_dst[a]);
                    assert(d[b] == old_dst[b - 1]);
                    assert(perm[a] == old_perm[a]);
                    assert(perm[b] == old_perm[b - 1]);
                } else {
                    assert(d[a] == old_dst[a - 1]);
                    assert(d[b] == old_dst[b - 1]);
                    assert(perm[a] == old_perm[a - 1]);
                    assert(perm[b] == old_perm[b - 1]);
                }
            }
            assert(stable_sorted(post, d, perm));
        }
        k = k + 1;
    }
    assert(src.take(n as int) =~= src);
    dst
}

/// A directory that does not begin with a backslash unless it is long
/// enough to hold the whole of a long-path prefix: what comes after it then
/// has no say in which prefix is cleaned off.
pub open spec fn prefix_decided(dir: Seq<char>) -> bool {
    dir.len() >= 8 || (dir.len() > 0 && dir[0] != '\\')
}

/// The cleaned path of entry `name` of directory `dir`, as every platform
/// gives it: the cleaned directory, `/` and the name.
pub open spec fn entry_path(dir: Seq<char>, name: Seq<char>) -> Seq<char> {
    forward_slashes(without_unc_prefix(dir)) + seq!['/'] + name
}

proof fn lemma_entry_text(dir: Seq<char>, c: char, name: Seq<char>)
    requires
        path_separator(c),
        prefix_decided(dir),
        plain_name(name),
    ensures
        forward_slashes(without_unc_prefix(dir + seq![c] + name)) == entry_path(dir, name),
{
    let x = dir + seq![c] + name;
    let tail = seq![c] + name;
    assert(x =~= dir + tail);
    assert(unc_long_prefix().is_prefix_of(x) <==> unc_long_prefix().is_prefix_of(dir)) by {
        if dir.len() >= 8 {
            assert(x.subrange(0, 8) =~= dir.subrange(0, 8));
        } else {
            assert(x[0] == dir[0]);
            assert(unc_long_prefix()[0] == '\\');
        }
    }
    assert(long_prefix().is_prefix_of(x) <==> long_prefix().is_prefix_of(dir)) by {
        if dir.len() >= 8 {
            assert(x.subrange(0, 4) =~= dir.subrange(0, 4));
        } else {
            assert(x[0] == dir[0]);
            assert(long_prefix()[0] == '\\');
        }
    }
    let w = without_unc_prefix(dir);
    assert(without_unc_prefix(x) =~= w + tail) by {
        if unc_long_prefix().is_prefix_of(dir) {
            assert(x.skip(8) =~= dir.skip(8) + tail);
        } else if long_prefix().is_prefix_of(dir) {
            assert(x.skip(4) =~= dir.skip(4) + tail);
        }
    }
    assert(forward_slashes(w + tail) =~= forward_slashes(w) + seq!['/'] + name) by {
        assert forall|i: int| 0 <= i < name.len() implies name[i] != '\\' by {
            assert(!path_separator(name[i]));
        }
    }
}

/// The entry for `name` in directory `dir`.
fn listed_entry(dir: &str, name: String, is_dir: bool) -> (r: FsEntry)
    ensures
        r.name@ == name@,
        r.is_dir == is_dir,
        plain_name(name@) && joinable(dir@) && prefix_decided(dir@) ==> r.path@ == entry_path(dir@, name@),
{
    let joined = path_join(dir, name.as_str());
    let path = clean_path(joined.as_str());
    proof {
        if plain_name(name@) && joinable(dir@) && prefix_decided(dir@) {
            let c = choose|c: char| path_separator(c) && joined@ == dir@ + seq![c] + name@;
            lemma_entry_text(dir@, c, name@);
        }
    }
    FsEntry { name, path, is_dir }
}

/// The listing of directory `dir` (already resolved), given the
/// `(name, is_dir)` pairs of its entries as the system gave them: the
/// directory's path and its parent's cleaned, entries sorted.
pub fn browse_listing(dir: &str, found: Vec<(String, bool)>) -> (r: BrowseResponse)
    ensures
        r.path@ == forward_slashes(without_unc_prefix(dir@)),
        dir@.len() == 0 ==> r.parent is None,
        dir@ == seq!['/'] ==> r.parent is None,
        r.parent matches Some(p) ==> exists|q: Seq<char>| p@ == forward_slashes(without_unc_prefix(q)),
        clear_parent(dir@) ==> r.parent is Some && r.parent.unwrap()@ == forward_slashes(
            without_unc_prefix(parent_part(dir@)),
        ),
        exists|listed: Seq<FsEntry>, perm: Seq<int>|
            {
                &&& listed.len() == found@.len()
                &&& forall|i: int|
                    0 <= i < listed.len() ==> (#[trigger] listed[i]).name@ == found@[i].0@
                        && listed[i].is_dir == found@[i].1
                &&& forall|i: int|
                    0 <= i < listed.len() && plain_name(found@[i].0@) && joinable(dir@) && prefix_decided(dir@)
                        ==> (#[trigger] listed[i]).path@ == entry_path(dir@, found@[i].0@)
                &&& stable_sorted(listed, r.entries@, perm)
            },
{
    let mut listed: Vec<FsEntry> = Vec::new();
    let mut found = found;
    let ghost src = found@;
    let n = found.len();
    let mut k: usize = 0;
    while k < n
        invariant
            n == src.len(),
            k <= n,
            found@ == src.skip(k as int),
            listed@.len() == k,
            forall|i: int|
                0 <= i < k ==> (#[trigger] listed@[i]).name@ == src[i].0@ && listed@[i].is_dir
                    == src[i].1,
            forall|i: int|
                0 <= i < k && plain_name(src[i].0@) && joinable(dir@) && prefix_decided(dir@)
                    ==> (#[trigger] listed@[i]).path@ == entry_path(dir@, src[i].0@),
        decreases n - k,
    {
        assert(found@.len() > 0);
        let (name, is_dir) = found.remove(0);
        assert(found@ =~= src.skip(k + 1));
        let e = listed_entry(dir, name, is_dir);
        listed.push(e);
        k = k + 1;
    }
    let ghost listed_seq = listed@;
    let entries = sort_entries(listed);
    let parent_clean = match path_parent(dir) {
        Some(p) => Some(clean_path(p.as_str())),
        None => None,
    };
    let r = BrowseResponse { path: clean_path(dir), parent: parent_clean, entries };
    proof {
        let perm = choose|perm: Seq<int>| stable_sorted(listed_seq, r.entries@, perm);
        assert(listed_seq.len() == src.len());
        assert(stable_sorted(listed_seq, r.entries@, perm));
    }
    r
}


// ── Front end ─────────────────────────────────────────────────

/// `s` without the slashes it begins with.
pub open spec fn without_leading_slashes(s: Seq<char>) -> Seq<char>
    decreases s.len(),
{
    if s.len() > 0 && s[0] == '/' {
        without_leading_slashes(s.skip(1))
    } else {
        s
    }
}

/// The file of the front end that a request path asks for: the path
/// without its leading slashes, or `index.html` when nothing is left.
pub fn static_file_path(uri_path: &str) -> (r: String)
    ensures
        r@ == (if without_leading_slashes(uri_path@).len() == 0 {
            "index.html"@
        } else {
            without_leading_slashes(uri_path@)
        }),
{
    let cs = chars_of(uri_path);
    let n = cs.len();
    let mut k: usize = 0;
    assert(cs@.skip(0) =~= cs@);
    while k < n && cs[k] == '/'
        invariant
            n == cs@.len(),
            cs@ == uri_path@,
            k <= n,
            without_leading_slashes(uri_path@) == without_leading_slashes(cs@.skip(k as int)),
        decreases n - k,
    {
        assert(cs@.skip(k as int).skip(1) =~= cs@.skip(k + 1));
        k = k + 1;
    }
    assert(without_leading_slashes(cs@.skip(k as int)) == cs@.skip(k as int));
    if k == n {
        assert(cs@.skip(k as int).len() == 0);
        String::from_str("index.html")
    } else {
        assert(cs@.subrange(k as int, n as int) =~= cs@.skip(k as int));
        string_from_chars(vstd::slice::slice_subrange(cs.as_slice(), k, n))
    }
}


// ── Replies ───────────────────────────────────────────────────

/// The body of a reply.
pub enum ReplyBody {
    Success(ApiSuccess),
    Failure(ApiError),
}

/// A reply: HTTP status code and body.
pub struct ApiReply {
    pub status: u16,
    pub body: ReplyBody,
}

/// The text of an error as the API reports it: exact for every error but an
/// I/O one, whose system description follows a fixed prefix.
pub open spec fn reports_error(text: Seq<char>, e: GuguError) -> bool {
    &&& !(e is Io) ==> text == error_text(e)
    &&& e is Io ==> error_text(e).is_prefix_of(text)
}

/// The reply to an operation that returns nothing: `200` with
/// `success_msg`, or `error_status` with the error's text.
pub fn api_res(result: &Result<(), GuguError>, success_msg: &str, error_status: u16) -> (r: ApiReply)
    ensures
        match result {
            Ok(_) => r.status == 200 && (r.body matches ReplyBody::Success(s) && s.message@ == success_msg@),
            Err(e) => r.status == error_status && (r.body matches ReplyBody::Failure(f) && reports_error(f.error@, *e)),
        },
{
    match result {
        Ok(()) => ApiReply { status: 200, body: ReplyBody::Success(ApiSuccess::new(success_msg)) },
        Err(e) => {
            let text = e.to_string();
            ApiReply { status: error_status, body: ReplyBody::Failure(ApiError { error: text }) }
        },
    }
}

/// The operations whose reply is a bare message.
#[derive(Clone, Copy, Debug, PartialEq, Eq)]
pub enum Operation {
    Create,
    Update,
    Delete,
    Start,
    Stop,
    Restart,
    ClearLogs,
    Reload,
}

/// The message that reports success of an operation.
pub open spec fn operation_message(op: Operation) -> Seq<char> {
    match op {
        Operation::Create => "进程已添加"@,
        Operation::Update => "进程已更新"@,
        Operation::Delete => "进程已移除"@,
        Operation::Start => "进程已启动"@,
        Operation::Stop => "进程已停止"@,
        Operation::Restart => "进程已重启"@,
        Operation::ClearLogs => "日志已清空"@,
        Operation::Reload => "配置已重新加载"@,
    }
}

/// The status code of a successful operation.
pub open spec fn operation_ok_status(op: Operation) -> u16 {
    match op {
        Operation::Create => 201,
        _ => 200,
    }
}

/// The status code of a failed operation.
pub open spec fn operation_error_status(op: Operation) -> u16 {
    match op {
        Operation::Delete | Operation::ClearLogs => 404,
        Operation::Reload => 500,
        _ => 400,
    }
}

/// The reply to an operation.
pub fn operation_reply(op: Operation, result: &Result<(), GuguError>) -> (r: ApiReply)
    ensures
        match result {
            Ok(_) => r.status == operation_ok_status(op) && (r.body matches ReplyBody::Success(s)
                && s.message@ == operation_message(op)),
            Err(e) => r.status == operation_error_status(op) && (r.body matches ReplyBody::Failure(f)
                && reports_error(f.error@, *e)),
        },
{
    let (msg, err_status): (&str, u16) = match op {
        Operation::Create => ("进程已添加", 400),
        Operation::Update => ("进程已更新", 400),
        Operation::Delete => ("进程已移除", 404),
        Operation::Start => ("进程已启动", 400),
        Operation::Stop => ("进程已停止", 400),
        Operation::Restart => ("进程已重启", 400),
        Operation::ClearLogs => ("日志已清空", 404),
        Operation::Reload => ("配置已重新加载", 500),
    };
    let mut r = api_res(result, msg, err_status);
    if let Operation::Create = op {
        if result.is_ok() {
            r.status = 201;
        }
    }
    r
}

/// The reply when a named process or group is unknown: `404`.
pub fn not_found_reply(group: bool) -> (r: ApiReply)
    ensures
        r.status == 404,
        r.body matches ReplyBody::Failure(f) && f.error@ == if group {
            "进程组未找到"@
        } else {
            "进程未找到"@
        },
{
    let msg = if group {
        "进程组未找到"
    } else {
        "进程未找到"
    };
    ApiReply { status: 404, body: ReplyBody::Failure(ApiError::new(msg)) }
}


/// Without a key, or with an empty one, every request passes.
pub proof fn lemma_no_key_admits_all(key: Option<Seq<char>>, authorization: Option<Seq<char>>, query: Option<Seq<char>>)
    requires
        match key {
            Some(k) => k.len() == 0,
            None => true,
        },
    ensures
        admits(key, authorization, query),
{
}

/// A request that presents the key as `Authorization: Bearer <key>` passes.
pub proof fn lemma_bearer_key_admitted(key: Seq<char>, query: Option<Seq<char>>)
    ensures
        admits(Some(key), Some("Bearer "@ + key), query),
{
    let h = "Bearer "@ + key;
    assert(h.take("Bearer "@.len() as int) =~= "Bearer "@);
    assert(h.skip("Bearer "@.len() as int) =~= key);
}

/// A request whose query is exactly `token=<key>` passes, whatever key it
/// uses, as long as the key holds no `&`.
pub proof fn lemma_query_token_admitted(key: Seq<char>, authorization: Option<Seq<char>>)
    requires
        !key.contains('&'),
    ensures
        admits(Some(key), authorization, Some("token="@ + key)),
{
    let q = "token="@ + key;
    reveal_strlit("token=");
    assert forall|i: int| 0 <= i < q.len() implies q[i] != '&' by {
        if i >= 6 {
            assert(q[i] == key[i - 6]);
        }
    }
    lemma_split_without_sep(q, '&');
    assert(split_on(q, '&')[0] == q);
    assert(q.take("token="@.len() as int) =~= "token="@);
    assert(q.skip("token="@.len() as int) =~= key);
    assert(carries_token(split_on(q, '&')[0], key));
}

/// A text without the separator is one piece.
proof fn lemma_split_without_sep(s: Seq<char>, sep: char)
    requires
        forall|i: int| 0 <= i < s.len() ==> s[i] != sep,
    ensures
        split_on(s, sep) == seq![s],
    decreases s.len(),
{
    if s.len() > 0 {
        assert forall|i: int| 0 <= i < s.drop_last().len() implies s.drop_last()[i] != sep by {
            assert(s.drop_last()[i] == s[i]);
        }
        lemma_split_without_sep(s.drop_last(), sep);
        assert(s.last() != sep);
        assert(s.drop_last().push(s.last()) =~= s);
    } else if s.len() == 0 {
        assert(s =~= Seq::<char>::empty());
    }
}


// ── Live view ─────────────────────────────────────────────────

/// Which of the `subscribed` processes are still among `current` (their
/// subscriptions are kept).
pub fn kept_subscriptions(subscribed: &Vec<String>, current: &Vec<String>) -> (r: Vec<bool>)
    ensures
        r@.len() == subscribed@.len(),
        forall|i: int| 0 <= i < r@.len() ==> #[trigger] r@[i] == views(current@).contains(subscribed@[i]@),
{
    let mut r: Vec<bool> = Vec::new();
    let n = subscribed.len();
    for i in 0..n
        invariant
            n == subscribed@.len(),
            r@.len() == i,
            forall|k: int| 0 <= k < i ==> #[trigger] r@[k] == views(current@).contains(subscribed@[k]@),
    {
        r.push(contains_text(current, subscribed[i].as_str()));
    }
    r
}

/// The processes among `current` that have no subscription yet, in the
/// order of `current`.
pub fn missing_subscriptions(subscribed: &Vec<String>, current: &Vec<String>) -> (r: Vec<String>)
    ensures
        views(r@) == views(current@).filter(|n: Seq<char>| !views(subscribed@).contains(n)),
{
    let ghost pred = |n: Seq<char>| !views(subscribed@).contains(n);
    let mut r: Vec<String> = Vec::new();
    let n = current.len();
    for i in 0..n
        invariant
            n == current@.len(),
            pred == (|n: Seq<char>| !views(subscribed@).contains(n)),
            views(r@) == views(current@).take(i as int).filter(pred),
    {
        proof {
            reveal(Seq::filter);
            assert(views(current@).take(i + 1).drop_last() =~= views(current@).take(i as int));
            assert(views(current@).take(i + 1).last() == current@[i as int]@);
        }
        if !contains_text(subscribed, current[i].as_str()) {
            let ghost before = r@;
            let nm = current[i].clone();
            r.push(nm);
            assert(views(r@) =~= views(before).push(current@[i as int]@));
        }
    }
    assert(views(current@).take(n as int) =~= views(current@));
    r
}

pub(crate) fn contains_text(list: &Vec<String>, s: &str) -> (r: bool)
    ensures
        r == views(list@).contains(s@),
{
    let n = list.len();
    for i in 0..n
        invariant
            n == list@.len(),
            forall|k: int| 0 <= k < i ==> list@[k]@ != s@,
    {
        if str_eq(list[i].as_str(), s) {
            assert(views(list@)[i as int] == s@);
            return true;
        }
    }
    proof {
        if views(list@).contains(s@) {
            let k = choose|k: int| 0 <= k < views(list@).len() && views(list@)[k] == s@;
            assert(list@[k]@ == s@);
        }
    }
    false
}

} // verus!
