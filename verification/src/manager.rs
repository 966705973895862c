use vstd::prelude::*;

use crate::config::{
    launch_alike,
    clear_parent, config_problem, copy_opt, joinable, joined_with_separator, opt_view, parent_part,
    path_parent, plain_name, reports, resolve_relative_path, same_env,
    same_runtime_fields, same_text, AppConfig, DaemonConfig, HealthCheckConfig, ProcessConfig,
    ProcessConfigView, WebConfig,
};
use crate::error::GuguError;
use crate::process::{
    describes, duration_of_secs, is_active, ManagedProcess, ProcessInfo, ProcessRecord, ProcessStatus,
};
use crate::strmap::StrMap;
use crate::text::{join, join_strings, str_eq, views};

verus! {

// ── Dependency order ──────────────────────────────────────────

/// The names that the process `name` lists under `depends_on`.
pub open spec fn listed_deps(m: StrMap<ProcessConfig>, name: Seq<char>) -> Seq<Seq<char>> {
    views(m.to_map()[name].depends_on@)
}

/// `dep` is a dependency of `name` that counts: it is listed and it is itself a
/// configured process. Listed names that are not configured are ignored.
pub open spec fn depends_on(m: StrMap<ProcessConfig>, name: Seq<char>, dep: Seq<char>) -> bool {
    &&& m.keys().contains(name)
    &&& m.keys().contains(dep)
    &&& listed_deps(m, name).contains(dep)
}

/// `order` names every configured process exactly once and puts each process
/// after all of its dependencies.
pub open spec fn is_start_order(m: StrMap<ProcessConfig>, order: Seq<Seq<char>>) -> bool {
    &&& order.no_duplicates()
    &&& order.to_set() == m.keys().to_set()
    &&& forall|a: int, b: int|
        0 <= a < order.len() && 0 <= b < order.len() && #[trigger] depends_on(m, order[a], order[b])
            ==> b < a
}

/// `done` lists distinct processes, each after all of its dependencies.
pub open spec fn is_start_prefix(m: StrMap<ProcessConfig>, done: Seq<Seq<char>>) -> bool {
    &&& done.no_duplicates()
    &&& forall|a: int| 0 <= a < done.len() ==> m.keys().contains(#[trigger] done[a])
    &&& forall|a: int, d: Seq<char>|
        0 <= a < done.len() && #[trigger] depends_on(m, done[a], d)
            ==> exists|b: int| 0 <= b < a && done[b] == d
}

/// Every process left out of `done` depends on another process left out.
pub open spec fn is_stuck(m: StrMap<ProcessConfig>, done: Seq<Seq<char>>) -> bool {
    forall|k: Seq<char>| #[trigger] m.keys().contains(k) && !done.contains(k)
        ==> exists|d: Seq<char>| depends_on(m, k, d) && !done.contains(d)
}

/// The configured names that `done` leaves out, in configuration order.
pub open spec fn left_out(m: StrMap<ProcessConfig>, done: Seq<Seq<char>>) -> Seq<Seq<char>> {
    m.keys().filter(|k: Seq<char>| !done.contains(k))
}

/// The report of a dependency cycle: the processes that could not be placed.
pub open spec fn cycle_report(m: StrMap<ProcessConfig>, done: Seq<Seq<char>>) -> Seq<char> {
    "检测到循环依赖: "@ + join(left_out(m, done), ", "@)
}

// Positions of the configured names among `ds`, in the order they are listed.
pub open spec fn positions(keys: Seq<Seq<char>>, ds: Seq<Seq<char>>) -> Seq<usize>
    decreases ds.len(),
{
    if ds.len() == 0 {
        Seq::empty()
    } else {
        let p = positions(keys, ds.drop_last());
        if keys.contains(ds.last()) {
            p.push(keys.index_of(ds.last()) as usize)
        } else {
            p
        }
    }
}

proof fn lemma_positions(keys: Seq<Seq<char>>, ds: Seq<Seq<char>>)
    requires
        keys.no_duplicates(),
        keys.len() <= usize::MAX,
    ensures
        forall|x: usize| #[trigger] positions(keys, ds).contains(x)
            <==> (x < keys.len() && ds.contains(keys[x as int])),
    decreases ds.len(),
{
    if ds.len() > 0 {
        lemma_positions(keys, ds.drop_last());
        let p = positions(keys, ds.drop_last());
        assert forall|x: usize| #[trigger] positions(keys, ds).contains(x)
            <==> (x < keys.len() && ds.contains(keys[x as int])) by {
            if positions(keys, ds).contains(x) {
                if keys.contains(ds.last()) && x == keys.index_of(ds.last()) as usize {
                    assert(ds.contains(keys[x as int])) by {
                        assert(ds[ds.len() - 1] == ds.last());
                    }
                } else {
                    if keys.contains(ds.last()) {
                        let i = choose|i: int| 0 <= i < positions(keys, ds).len() && positions(keys, ds)[i] == x;
                        assert(p.contains(x)) by { assert(p[i] == x); }
                    }
                    assert(p.contains(x));
                    let j = choose|j: int| 0 <= j < ds.drop_last().len() && ds.drop_last()[j] == keys[x as int];
                    assert(ds[j] == keys[x as int]);
                }
            }
            if x < keys.len() && ds.contains(keys[x as int]) {
                let j = choose|j: int| 0 <= j < ds.len() && ds[j] == keys[x as int];
                if j == ds.len() - 1 {
                    assert(keys.contains(ds.last())) by { assert(keys[x as int] == ds.last()); }
                    assert(keys.index_of(ds.last()) == x) by {
                        keys.index_of_first_ensures(ds.last());
                        let q = keys.index_of(ds.last());
                        assert(keys[q] == keys[x as int]);
                    }
                    let pp = positions(keys, ds);
                    assert(pp[pp.len() - 1] == x);
                } else {
                    assert(ds.drop_last()[j] == keys[x as int]);
                    assert(p.contains(x));
                    let i = choose|i: int| 0 <= i < p.len() && p[i] == x;
                    assert(positions(keys, ds)[i] == x);
                }
            }
        }
    }
}

/// How many times `x` occurs in `s`.
pub open spec fn count_of(s: Seq<usize>, x: usize) -> nat
    decreases s.len(),
{
    if s.len() == 0 {
        0
    } else {
        count_of(s.drop_last(), x) + if s.last() == x { 1nat } else { 0nat }
    }
}

/// How many entries of `s` are not yet in `done`.
pub open spec fn pending(s: Seq<usize>, done: Seq<usize>) -> nat
    decreases s.len(),
{
    if s.len() == 0 {
        0
    } else {
        pending(s.drop_last(), done) + if done.contains(s.last()) { 0nat } else { 1nat }
    }
}

proof fn lemma_pending_step(s: Seq<usize>, done: Seq<usize>, p: usize)
    requires
        !done.contains(p),
    ensures
        pending(s, done.push(p)) + count_of(s, p) == pending(s, done),
    decreases s.len(),
{
    if s.len() > 0 {
        lemma_pending_step(s.drop_last(), done, p);
        assert(done.push(p).contains(s.last()) <==> (done.contains(s.last()) || s.last() == p)) by {
            if done.push(p).contains(s.last()) && !done.contains(s.last()) {
                let i = choose|i: int| 0 <= i < done.push(p).len() && done.push(p)[i] == s.last();
                if i < done.len() {
                    assert(done[i] == s.last());
                }
            }
            if s.last() == p {
                assert(done.push(p)[done.len() as int] == p);
            }
            if done.contains(s.last()) {
                let i = choose|i: int| 0 <= i < done.len() && done[i] == s.last();
                assert(done.push(p)[i] == s.last());
            }
        }
    }
}

proof fn lemma_pending_zero(s: Seq<usize>, done: Seq<usize>)
    ensures
        pending(s, done) == 0 <==> forall|x: usize| s.contains(x) ==> done.contains(x),
        pending(s, done) <= s.len(),
    decreases s.len(),
{
    if s.len() > 0 {
        lemma_pending_zero(s.drop_last(), done);
        if pending(s, done) == 0 {
            assert forall|x: usize| s.contains(x) implies done.contains(x) by {
                let i = choose|i: int| 0 <= i < s.len() && s[i] == x;
                if i < s.len() - 1 {
                    assert(s.drop_last()[i] == x);
                }
            }
        }
        if forall|x: usize| s.contains(x) ==> done.contains(x) {
            assert(s.contains(s.last())) by { assert(s[s.len() - 1] == s.last()); }
            assert forall|x: usize| s.drop_last().contains(x) implies done.contains(x) by {
                let i = choose|i: int| 0 <= i < s.drop_last().len() && s.drop_last()[i] == x;
                assert(s[i] == x);
            }
        }
    }
}

proof fn lemma_pending_none_done(s: Seq<usize>)
    ensures
        pending(s, Seq::empty()) == s.len(),
    decreases s.len(),
{
    if s.len() > 0 {
        lemma_pending_none_done(s.drop_last());
    }
}

/// A repetition-free list of numbers below `n` has at most `n` entries, and
/// holds every number below `n` when it has exactly `n`.
proof fn lemma_distinct_below(s: Seq<usize>, n: usize)
    requires
        s.no_duplicates(),
        forall|i: int| 0 <= i < s.len() ==> s[i] < n,
    ensures
        s.len() <= n,
        s.len() == n ==> forall|x: usize| x < n ==> s.contains(x),
{
    let t = s.map_values(|x: usize| x as int);
    assert(t.no_duplicates()) by {
        assert forall|i: int, j: int| 0 <= i < t.len() && 0 <= j < t.len() && i != j implies t[i] != t[j] by {
            assert(s[i] != s[j]);
        }
    }
    t.unique_seq_to_set();
    let r = vstd::set_lib::set_int_range(0, n as int);
    vstd::set_lib::lemma_int_range(0, n as int);
    assert(t.to_set().subset_of(r)) by {
        assert forall|v: int| t.to_set().contains(v) implies r.contains(v) by {
            let i = choose|i: int| 0 <= i < t.len() && t[i] == v;
            assert(s[i] < n);
        }
    }
    vstd::set_lib::lemma_len_subset(t.to_set(), r);
    if s.len() == n {
        vstd::set_lib::lemma_subset_equality(t.to_set(), r);
        assert forall|x: usize| x < n implies s.contains(x) by {
            assert(r.contains(x as int));
            assert(t.to_set().contains(x as int));
            let i = choose|i: int| 0 <= i < t.len() && t[i] == x as int;
            assert(s[i] == x);
        }
    }
}

fn count_in(v: &Vec<usize>, x: usize) -> (c: usize)
    ensures
        c == count_of(v@, x),
{
    let mut c: usize = 0;
    let n = v.len();
    for i in 0..n
        invariant
            n == v@.len(),
            c == count_of(v@.take(i as int), x),
            c <= i,
    {
        assert(v@.take(i + 1).drop_last() =~= v@.take(i as int));
        if v[i] == x {
            c = c + 1;
        }
    }
    assert(v@.take(n as int) =~= v@);
    c
}

/// Positions of the configured dependencies of entry `i`.
pub open spec fn dep_positions(m: StrMap<ProcessConfig>, i: int) -> Seq<usize> {
    positions(m.keys(), views(m.values()[i].depends_on@))
}

/// What entry `i` depends on, seen through positions.
proof fn lemma_dep_positions(m: StrMap<ProcessConfig>, i: int, x: usize)
    requires
        m.well_formed(),
        0 <= i < m.keys().len(),
        m.keys().len() <= usize::MAX,
    ensures
        dep_positions(m, i).contains(x) <==> (x < m.keys().len()
            && depends_on(m, m.keys()[i], m.keys()[x as int])),
{
    let K = m.keys();
    lemma_positions(K, views(m.values()[i].depends_on@));
    assert(K.index_of(K[i]) == i) by {
        K.index_of_first_ensures(K[i]);
        let q = K.index_of(K[i]);
        assert(K[q] == K[i]);
    }
    assert(listed_deps(m, K[i]) == views(m.values()[i].depends_on@));
    if x < K.len() {
        assert(K.contains(K[x as int]));
    }
    assert(K.contains(K[i]));
}

proof fn lemma_take_contains(s: Seq<usize>, a: int, b: int, x: usize)
    requires
        0 <= a <= b <= s.len(),
        s.take(a).contains(x),
    ensures
        s.take(b).contains(x),
{
    let q = choose|q: int| 0 <= q < a && s.take(a)[q] == x;
    assert(s.take(b)[q] == x);
}

/// Sorts the configured processes so that every process comes after the
/// processes it depends on (Kahn's algorithm). Dependencies on names that are
/// not configured are ignored.
///
/// Fails with `CyclicDependency` when no such order exists; the message then
/// names the processes that could not be placed, in configuration order.
#[verifier::rlimit(50)]
pub fn topological_sort(processes: &StrMap<ProcessConfig>) -> (r: Result<Vec<String>, GuguError>)
    ensures
        r matches Ok(order) ==> is_start_order(*processes, views(order@)),
        r matches Err(e) ==> exists|done: Seq<Seq<char>>| {
            &&& is_start_prefix(*processes, done)
            &&& is_stuck(*processes, done)
            &&& done.len() < processes.keys().len()
            &&& e matches GuguError::CyclicDependency(msg) && msg@ == cycle_report(*processes, done)
        },
        r is Ok <==> exists|o: Seq<Seq<char>>| is_start_order(*processes, o),
{
    let m = processes;
    proof { use_type_invariant(m); }
    let ghost K = m.keys();
    let n = m.len();

    // Positions of each entry's configured dependencies.
    let mut idx: Vec<Vec<usize>> = Vec::new();
    for i in 0..n
        invariant
            n == K.len(),
            n == m.values().len(),
            K == m.keys(),
            m.well_formed(),
            idx@.len() == i,
            forall|j: int| 0 <= j < i ==> (#[trigger] idx@[j])@ == dep_positions(*m, j),
    {
        let deps = &m.value_at(i).depends_on;
        let ghost dv = views(deps@);
        let mut v: Vec<usize> = Vec::new();
        let dn = deps.len();
        for t in 0..dn
            invariant
                dn == deps@.len(),
                dv == views(deps@),
                K == m.keys(),
                m.well_formed(),
                v@ == positions(K, dv.take(t as int)),
        {
            assert(dv.take(t + 1).drop_last() =~= dv.take(t as int));
            assert(dv.take(t + 1).last() == deps@[t as int]@);
            match m.find(deps[t].as_str()) {
                Some(j) => {
                    v.push(j);
                },
                None => {},
            }
        }
        assert(dv.take(dn as int) =~= dv);
        idx.push(v);
    }

    // Number of configured dependencies not yet placed.
    let mut deg: Vec<usize> = Vec::new();
    for i in 0..n
        invariant
            n == K.len(),
            idx@.len() == n,
            deg@.len() == i,
            forall|j: int| 0 <= j < i ==> #[trigger] deg@[j] == idx@[j]@.len(),
    {
        deg.push(idx[i].len());
    }

    let mut result: Vec<usize> = Vec::new();
    for i in 0..n
        invariant
            n == K.len(),
            idx@.len() == n,
            deg@.len() == n,
            forall|j: int| 0 <= j < n ==> #[trigger] deg@[j] == idx@[j]@.len(),
            result@.no_duplicates(),
            forall|k: int| 0 <= k < result@.len() ==> result@[k] < i,
            forall|j: usize| j < i ==> (result@.contains(j) <==> deg@[j as int] == 0),
    {
        let ghost before = result@;
        if deg[i] == 0 {
            result.push(i);
            proof {
                assert forall|a: int, b: int| 0 <= a < result@.len() && 0 <= b < result@.len() && a != b
                    implies result@[a] != result@[b] by {
                    if a < before.len() && b < before.len() {
                        assert(before[a] != before[b]);
                    }
                }
            }
        }
        proof {
            assert forall|j: usize| j < i + 1 implies (result@.contains(j) <==> deg@[j as int] == 0) by {
                if result@.contains(j) && j != i {
                    let q = choose|q: int| 0 <= q < result@.len() && result@[q] == j;
                    assert(before[q] == j);
                }
                if before.contains(j) {
                    let q = choose|q: int| 0 <= q < before.len() && before[q] == j;
                    assert(result@[q] == j);
                }
                if j == i && deg@[j as int] == 0 {
                    assert(result@[before.len() as int] == j);
                }
            }
        }
    }
    proof {
        assert forall|j: int| 0 <= j < n implies #[trigger] deg@[j] == pending(dep_positions(*m, j), result@.take(0)) by {
            assert(result@.take(0) =~= Seq::<usize>::empty());
            lemma_pending_none_done(dep_positions(*m, j));
        }
        assert forall|k: int, x: usize| 0 <= k < result@.len() && #[trigger] dep_positions(*m, result@[k] as int).contains(x)
            implies result@.take(k).contains(x) by {
            assert(deg@[result@[k] as int] == 0) by {
                assert(result@.contains(result@[k]));
            }
            assert(dep_positions(*m, result@[k] as int).len() == 0);
        }
    }

    let mut head: usize = 0;
    while head < result.len()
        invariant
            n == K.len(),
            n == m.values().len(),
            K == m.keys(),
            m.well_formed(),
            idx@.len() == n,
            forall|j: int| 0 <= j < n ==> (#[trigger] idx@[j])@ == dep_positions(*m, j),
            deg@.len() == n,
            head <= result@.len(),
            result@.no_duplicates(),
            forall|k: int| 0 <= k < result@.len() ==> result@[k] < n,
            forall|j: int| 0 <= j < n ==> #[trigger] deg@[j] == pending(dep_positions(*m, j), result@.take(head as int)),
            forall|j: usize| j < n ==> (result@.contains(j) <==> deg@[j as int] == 0),
            forall|k: int, x: usize| 0 <= k < result@.len() && #[trigger] dep_positions(*m, result@[k] as int).contains(x)
                ==> result@.take(k).contains(x),
        decreases n - head,
    {
        proof { lemma_distinct_below(result@, n); }
        let p = result[head];
        let ghost done0 = result@.take(head as int);
        let ghost done1 = done0.push(p);
        let ghost old_result = result@;
        proof {
            assert(!done0.contains(p)) by {
                if done0.contains(p) {
                    let q = choose|q: int| 0 <= q < head && done0[q] == p;
                    assert(result@[q] == result@[head as int]);
                }
            }
            assert(result@.take(old_result.len() as int) =~= old_result);
        }
        for i in 0..n
            invariant
                n == K.len(),
                n == m.values().len(),
                K == m.keys(),
                m.well_formed(),
                idx@.len() == n,
                forall|j: int| 0 <= j < n ==> (#[trigger] idx@[j])@ == dep_positions(*m, j),
                deg@.len() == n,
                head < old_result.len(),
                p == old_result[head as int],
                done0 == old_result.take(head as int),
                done1 == done0.push(p),
                !done0.contains(p),
                old_result.len() <= result@.len(),
                result@.take(old_result.len() as int) == old_result,
                result@.no_duplicates(),
                forall|k: int| 0 <= k < result@.len() ==> result@[k] < n,
                forall|j: int| 0 <= j < i ==> #[trigger] deg@[j] == pending(dep_positions(*m, j), done1),
                forall|j: int| i <= j < n ==> #[trigger] deg@[j] == pending(dep_positions(*m, j), done0),
                forall|j: usize| j < n ==> (result@.contains(j) <==> deg@[j as int] == 0),
                forall|k: int, x: usize| 0 <= k < result@.len() && #[trigger] dep_positions(*m, result@[k] as int).contains(x)
                    ==> result@.take(k).contains(x),
        {
            let c = count_in(&idx[i], p);
            proof { lemma_pending_step(dep_positions(*m, i as int), done0, p); }
            if c > 0 {
                let d = deg[i] - c;
                let ghost before = result@;
                let ghost deg_before = deg@;
                deg.set(i, d);
                if d == 0 {
                    proof {
                        assert(!before.contains(i)) by {
                            assert(deg_before[i as int] != 0);
                        }
                    }
                    result.push(i);
                    proof {
                        assert(result@.take(old_result.len() as int) =~= old_result) by {
                            assert(before.take(old_result.len() as int) == old_result);
                        }
                        assert forall|a: int, b: int| 0 <= a < result@.len() && 0 <= b < result@.len() && a != b
                            implies result@[a] != result@[b] by {
                            if a < before.len() && b < before.len() {
                                assert(before[a] != before[b]);
                            } else if a == before.len() {
                                assert(before.contains(before[b]) || b == before.len());
                            } else {
                                assert(before.contains(before[a]));
                            }
                        }
                        let k0 = before.len() as int;
                        lemma_pending_zero(dep_positions(*m, i as int), done1);
                        assert(done1 =~= result@.take(head + 1)) by {
                            assert(old_result.take(head + 1) =~= done0.push(p));
                            assert(result@.take(head + 1) =~= old_result.take(head + 1));
                        }
                        assert forall|x: usize| #[trigger] dep_positions(*m, result@[k0] as int).contains(x)
                            implies result@.take(k0).contains(x) by {
                            assert(done1.contains(x));
                            lemma_take_contains(result@, head + 1, k0, x);
                        }
                        assert forall|k: int, x: usize| 0 <= k < result@.len() && #[trigger] dep_positions(*m, result@[k] as int).contains(x)
                            implies result@.take(k).contains(x) by {
                            if k < k0 {
                                assert(result@[k] == before[k]);
                                assert(before.take(k) =~= result@.take(k));
                            }
                        }
                        assert forall|j: usize| j < n implies (result@.contains(j) <==> deg@[j as int] == 0) by {
                            if result@.contains(j) && j != i {
                                let q = choose|q: int| 0 <= q < result@.len() && result@[q] == j;
                                assert(before[q] == j);
                            }
                            if before.contains(j) {
                                let q = choose|q: int| 0 <= q < before.len() && before[q] == j;
                                assert(result@[q] == j);
                            }
                            if j == i {
                                assert(result@[k0] == j);
                            }
                        }
                    }
                }
            }
        }
        proof {
            assert(result@.take(head + 1) =~= done1) by {
                assert(old_result.take(head + 1) =~= done0.push(p));
                assert(result@.take(head + 1) =~= old_result.take(head + 1));
            }
        }
        head = head + 1;
    }

    proof { lemma_distinct_below(result@, n); }
    assert(result@.take(head as int) =~= result@);

    // Names of the placed processes, in placement order.
    let mut names: Vec<String> = Vec::new();
    let rn = result.len();
    for k in 0..rn
        invariant
            rn == result@.len(),
            n == K.len(),
            K == m.keys(),
            m.well_formed(),
            forall|q: int| 0 <= q < result@.len() ==> result@[q] < n,
            names@.len() == k,
            forall|q: int| 0 <= q < k ==> (#[trigger] names@[q])@ == K[result@[q] as int],
    {
        names.push(m.key_at(result[k]).clone());
    }
    let ghost done = views(names@);
    proof {
        assert forall|q: int| 0 <= q < done.len() implies done[q] == K[result@[q] as int] by {}
        assert(done.no_duplicates()) by {
            assert forall|a: int, b: int| 0 <= a < done.len() && 0 <= b < done.len() && a != b
                implies done[a] != done[b] by {
                assert(result@[a] != result@[b]);
                assert(K[result@[a] as int] != K[result@[b] as int]);
            }
        }
        assert forall|q: int| 0 <= q < done.len() implies K.contains(#[trigger] done[q]) by {
            assert(K[result@[q] as int] == done[q]);
        }
        assert forall|a: int, dd: Seq<char>| 0 <= a < done.len() && #[trigger] depends_on(*m, done[a], dd)
            implies exists|b: int| 0 <= b < a && done[b] == dd by {
            let x = K.index_of(dd) as usize;
            assert(K[x as int] == dd) by { K.index_of_first_ensures(dd); }
            lemma_dep_positions(*m, result@[a] as int, x);
            assert(dep_positions(*m, result@[a] as int).contains(x));
            let q = choose|q: int| 0 <= q < a && result@.take(a)[q] == x;
            assert(done[q] == dd);
        }
    }

    if rn == n {
        proof {
            assert(done.to_set() =~= K.to_set()) by {
                assert forall|kk: Seq<char>| K.contains(kk) implies done.contains(kk) by {
                    let x = K.index_of(kk);
                    assert(K[x] == kk) by { K.index_of_first_ensures(kk); }
                    assert(result@.contains(x as usize));
                    let q = choose|q: int| 0 <= q < result@.len() && result@[q] == x as usize;
                    assert(done[q] == kk);
                }
            }
            assert forall|a: int, b: int| 0 <= a < done.len() && 0 <= b < done.len()
                && #[trigger] depends_on(*m, done[a], done[b]) implies b < a by {
                let bb = choose|bb: int| 0 <= bb < a && done[bb] == done[b];
                assert(bb == b);
            }
        }
        assert(is_start_order(*m, views(names@)));
        return Ok(names);
    }

    // Some processes could not be placed: report them in configuration order.
    let mut rest: Vec<String> = Vec::new();
    let ghost pred = |kk: Seq<char>| !done.contains(kk);
    for i in 0..n
        invariant
            n == K.len(),
            K == m.keys(),
            m.well_formed(),
            deg@.len() == n,
            forall|j: usize| j < n ==> (result@.contains(j) <==> deg@[j as int] == 0),
            forall|q: int| 0 <= q < done.len() ==> done[q] == K[result@[q] as int],
            forall|q: int| 0 <= q < result@.len() ==> result@[q] < n,
            done.len() == result@.len(),
            pred == (|kk: Seq<char>| !done.contains(kk)),
            views(rest@) == K.take(i as int).filter(pred),
    {
        proof {
            reveal(Seq::filter);
            assert(K.take(i + 1).drop_last() =~= K.take(i as int));
            assert(K.take(i + 1).last() == K[i as int]);
            assert(done.contains(K[i as int]) <==> result@.contains(i)) by {
                if done.contains(K[i as int]) {
                    let q = choose|q: int| 0 <= q < done.len() && done[q] == K[i as int];
                    assert(K[result@[q] as int] == K[i as int]);
                    assert(result@[q] == i);
                }
                if result@.contains(i) {
                    let q = choose|q: int| 0 <= q < result@.len() && result@[q] == i;
                    assert(done[q] == K[i as int]);
                }
            }
        }
        if deg[i] != 0 {
            rest.push(m.key_at(i).clone());
            assert(views(rest@) =~= K.take(i + 1).filter(pred));
        } else {
            assert(views(rest@) =~= K.take(i + 1).filter(pred));
        }
    }
    proof {
        assert(K.take(n as int) =~= K);
        assert forall|kk: Seq<char>| #[trigger] K.contains(kk) && !done.contains(kk)
            implies exists|dd: Seq<char>| depends_on(*m, kk, dd) && !done.contains(dd) by {
            let i = K.index_of(kk);
            assert(K[i] == kk) by { K.index_of_first_ensures(kk); }
            assert(!result@.contains(i as usize)) by {
                if result@.contains(i as usize) {
                    let q = choose|q: int| 0 <= q < result@.len() && result@[q] == i as usize;
                    assert(done[q] == kk);
                }
            }
            assert(deg@[i] != 0);
            lemma_pending_zero(dep_positions(*m, i), result@);
            let x = choose|x: usize| dep_positions(*m, i).contains(x) && !result@.contains(x);
            lemma_dep_positions(*m, i, x);
            let dd = K[x as int];
            assert(!done.contains(dd)) by {
                if done.contains(dd) {
                    let q = choose|q: int| 0 <= q < done.len() && done[q] == dd;
                    assert(K[result@[q] as int] == K[x as int]);
                    assert(result@[q] == x);
                }
            }
        }
        assert(left_out(*m, done) == K.filter(pred));
    }
    let mut msg = String::from_str("检测到循环依赖: ");
    let joined = join_strings(&rest, ", ");
    msg.append(joined.as_str());
    let e = GuguError::CyclicDependency(msg);
    proof {
        assert(views(rest@) == left_out(*m, done));
        assert(is_start_prefix(*m, done));
        assert(is_stuck(*m, done));
        assert(done.len() < K.len());
        assert(e matches GuguError::CyclicDependency(mm) && mm@ == cycle_report(*m, done));
        assert forall|o: Seq<Seq<char>>| !is_start_order(*m, o) by {
            lemma_stuck_prefix_blocks_order(*m, done, o);
        }
    }
    Err(e)
}

proof fn least_left_out(o: Seq<Seq<char>>, done: Seq<Seq<char>>, i: int, a: int) -> (r: int)
    requires
        0 <= i <= a < o.len(),
        forall|j: int| 0 <= j < i ==> done.contains(o[j]),
        !done.contains(o[a]),
    ensures
        i <= r <= a,
        !done.contains(o[r]),
        forall|j: int| 0 <= j < r ==> done.contains(o[j]),
    decreases a - i,
{
    if !done.contains(o[i]) {
        i
    } else {
        least_left_out(o, done, i + 1, a)
    }
}

/// When a start prefix gets stuck before placing every process, no start
/// order exists at all.
pub proof fn lemma_stuck_prefix_blocks_order(m: StrMap<ProcessConfig>, done: Seq<Seq<char>>, o: Seq<Seq<char>>)
    requires
        m.well_formed(),
        is_start_prefix(m, done),
        is_stuck(m, done),
        done.len() < m.keys().len(),
    ensures
        !is_start_order(m, o),
{
    if is_start_order(m, o) {
        let K = m.keys();
        // Some configured process is left out of `done`.
        done.unique_seq_to_set();
        K.unique_seq_to_set();
        assert(done.to_set().subset_of(K.to_set())) by {
            assert forall|x: Seq<char>| done.to_set().contains(x) implies K.to_set().contains(x) by {
                let q = choose|q: int| 0 <= q < done.len() && done[q] == x;
                assert(K.contains(done[q]));
            }
        }
        if forall|x: Seq<char>| K.to_set().contains(x) ==> done.to_set().contains(x) {
            assert(done.to_set() =~= K.to_set());
            assert(false);
        }
        let k = choose|x: Seq<char>| K.to_set().contains(x) && !done.to_set().contains(x);
        assert(K.contains(k) && !done.contains(k));
        assert(o.to_set().contains(k));
        let a0 = choose|a: int| 0 <= a < o.len() && o[a] == k;
        let a = least_left_out(o, done, 0, a0);
        assert(K.to_set().contains(o[a]));
        let d = choose|d: Seq<char>| depends_on(m, o[a], d) && !done.contains(d);
        assert(o.to_set().contains(d));
        let b = choose|b: int| 0 <= b < o.len() && o[b] == d;
        assert(depends_on(m, o[a], o[b]));
        assert(b < a);
        assert(done.contains(o[b]));
    }
}

/// A chain of dependencies that returns to where it started: each entry
/// depends on the next, and the last on the first.
pub open spec fn is_dependency_cycle(m: StrMap<ProcessConfig>, c: Seq<Seq<char>>) -> bool {
    &&& c.len() > 0
    &&& forall|i: int| 0 <= i < c.len() - 1 ==> #[trigger] depends_on(m, c[i], c[i + 1])
    &&& depends_on(m, c[c.len() - 1], c[0])
}

proof fn lemma_cycle_positions(m: StrMap<ProcessConfig>, c: Seq<Seq<char>>, o: Seq<Seq<char>>, k: int) -> (p: int)
    requires
        is_dependency_cycle(m, c),
        is_start_order(m, o),
        0 <= k < c.len(),
    ensures
        0 <= p < o.len(),
        o[p] == c[k],
        forall|q: int| 0 <= q < o.len() && o[q] == c[0] ==> p + k <= q,
    decreases k,
{
    assert(m.keys().contains(c[k])) by {
        if k < c.len() - 1 {
            assert(depends_on(m, c[k], c[k + 1]));
        } else {
            assert(depends_on(m, c[c.len() - 1], c[0]));
        }
    }
    assert(o.to_set().contains(c[k]));
    let p = choose|p: int| 0 <= p < o.len() && o[p] == c[k];
    if k > 0 {
        let pp = lemma_cycle_positions(m, c, o, k - 1);
        assert(depends_on(m, o[pp], o[p])) by {
            assert(depends_on(m, c[k - 1], c[(k - 1) + 1]));
        }
        assert(p < pp);
        assert forall|q: int| 0 <= q < o.len() && o[q] == c[0] implies p + k <= q by {}
    } else {
        assert forall|q: int| 0 <= q < o.len() && o[q] == c[0] implies p + k <= q by {
            assert(o[q] == o[p]);
            if q != p {
                assert(o.no_duplicates());
            }
        }
    }
    p
}

/// Processes that depend on each other in a circle admit no start order.
pub proof fn lemma_cycle_blocks_order(m: StrMap<ProcessConfig>, c: Seq<Seq<char>>, o: Seq<Seq<char>>)
    requires
        is_dependency_cycle(m, c),
    ensures
        !is_start_order(m, o),
{
    if is_start_order(m, o) {
        let last = c.len() - 1;
        let pl = lemma_cycle_positions(m, c, o, last);
        let p0 = lemma_cycle_positions(m, c, o, 0);
        assert(depends_on(m, o[pl], o[p0]));
        assert(p0 < pl);
        assert(pl + last <= p0);
    }
}

// ── Snapshots ─────────────────────────────────────────────────

/// What the guardian last reported about all of its processes.
#[derive(Debug, Clone)]
pub struct ProcessSnapshot {
    pub processes: Vec<ProcessInfo>,
}

impl Default for ProcessSnapshot {
    fn default() -> (s: Self)
        ensures
            s.processes@.len() == 0,
    {
        ProcessSnapshot { processes: Vec::new() }
    }
}

impl ProcessSnapshot {
    /// The report on the first process called `name`.
    pub fn find(&self, name: &str) -> (r: Option<&ProcessInfo>)
        ensures
            r is None <==> forall|i: int| 0 <= i < self.processes@.len() ==> self.processes@[i].name@ != name@,
            r matches Some(p) ==> exists|i: int| 0 <= i < self.processes@.len() && self.processes@[i] == *p
                && p.name@ == name@
                && forall|j: int| 0 <= j < i ==> self.processes@[j].name@ != name@,
    {
        let n = self.processes.len();
        for i in 0..n
            invariant
                n == self.processes@.len(),
                forall|j: int| 0 <= j < i ==> self.processes@[j].name@ != name@,
        {
            if str_eq(self.processes[i].name.as_str(), name) {
                return Some(&self.processes[i]);
            }
        }
        None
    }

    /// The names of the reported processes, in report order.
    pub fn names(&self) -> (r: Vec<String>)
        ensures
            views(r@) == self.processes@.map_values(|p: ProcessInfo| p.name@),
    {
        let mut r: Vec<String> = Vec::new();
        let n = self.processes.len();
        for i in 0..n
            invariant
                n == self.processes@.len(),
                views(r@) == self.processes@.take(i as int).map_values(|p: ProcessInfo| p.name@),
        {
            let ghost before = r@;
            let nm = self.processes[i].name.clone();
            r.push(nm);
            assert(r@ == before.push(nm));
            assert(views(r@) =~= views(before).push(nm@));
            assert(self.processes@.take(i + 1).map_values(|p: ProcessInfo| p.name@)
                =~= self.processes@.take(i as int).map_values(|p: ProcessInfo| p.name@).push(self.processes@[i as int].name@));
            assert(views(r@) =~= self.processes@.take(i + 1).map_values(|p: ProcessInfo| p.name@));
        }
        assert(self.processes@.take(n as int) =~= self.processes@);
        r
    }
}

// ── The guardian's state ──────────────────────────────────────

/// `r` is `c` with its working directory and log paths resolved: every other
/// field is unchanged and each of those paths is present exactly when it was.
pub open spec fn resolved_from(r: ProcessConfigView, c: ProcessConfigView) -> bool {
    &&& r == ProcessConfigView { working_dir: r.working_dir, stdout_log: r.stdout_log, stderr_log: r.stderr_log, ..c }
    &&& (r.working_dir is Some <==> c.working_dir is Some)
    &&& (r.stdout_log is Some <==> c.stdout_log is Some)
    &&& (r.stderr_log is Some <==> c.stderr_log is Some)
}

/// A process as it is first registered: stopped, never crashed, never checked.
pub open spec fn is_fresh(p: ManagedProcess) -> bool {
    &&& p.status_view() == ProcessStatus::Stopped
    &&& p.crash_count() == 0
    &&& p.healthy_view() is None
    &&& p.started_view() is None
    &&& p.pid_view() is None
    &&& p.last_check_view() is None
}

/// The processes are as before, except possibly the one at `i`.
pub open spec fn others_unchanged(old: Seq<ManagedProcess>, new: Seq<ManagedProcess>, i: int) -> bool {
    &&& new.len() == old.len()
    &&& forall|j: int| 0 <= j < old.len() && j != i ==> new[j] == old[j]
}

/// The state that the process guardian acts on: the managed processes, in
/// registration order with unique names, the daemon settings, and the file
/// the configuration is saved to.
#[derive(Debug)]
pub struct ManagerState {
    processes: Vec<ManagedProcess>,
    daemon_config: DaemonConfig,
    config_path: Option<String>,
}

impl ManagerState {
    pub closed spec fn procs(&self) -> Seq<ManagedProcess> {
        self.processes@
    }

    pub open spec fn names(&self) -> Seq<Seq<char>> {
        self.procs().map_values(|p: ManagedProcess| p.name_view())
    }

    pub closed spec fn path_view(&self) -> Option<Seq<char>> {
        opt_view(self.config_path)
    }

    pub closed spec fn daemon_view(&self) -> DaemonConfig {
        self.daemon_config
    }

    #[verifier::type_invariant]
    pub open spec fn unique_names(&self) -> bool {
        self.names().no_duplicates()
    }

    /// Where `name` stands among the processes, or -1.
    pub open spec fn index_of_name(&self, name: Seq<char>) -> int {
        if self.names().contains(name) {
            self.names().index_of(name)
        } else {
            -1
        }
    }

    pub fn len(&self) -> (n: usize)
        ensures
            n == self.procs().len(),
    {
        self.processes.len()
    }

    pub fn process_at(&self, i: usize) -> (p: &ManagedProcess)
        requires
            i < self.procs().len(),
        ensures
            *p == self.procs()[i as int],
    {
        &self.processes[i]
    }

    pub fn config_path(&self) -> (r: Option<&String>)
        ensures
            r is Some <==> self.path_view() is Some,
            r matches Some(p) ==> Some(p@) == self.path_view(),
    {
        self.config_path.as_ref()
    }

    pub fn daemon_config(&self) -> (r: &DaemonConfig)
        ensures
            *r == self.daemon_view(),
    {
        &self.daemon_config
    }

    /// Where the process called `name` stands.
    pub fn find(&self, name: &str) -> (r: Option<usize>)
        ensures
            r is Some <==> self.names().contains(name@),
            r matches Some(i) ==> i == self.index_of_name(name@) && i < self.procs().len()
                && self.procs()[i as int].name_view() == name@,
            r is None ==> self.index_of_name(name@) == -1,
    {
        proof { use_type_invariant(self); }
        let n = self.processes.len();
        for i in 0..n
            invariant
                n == self.procs().len(),
                self.names().no_duplicates(),
                forall|j: int| 0 <= j < i ==> self.names()[j] != name@,
        {
            if str_eq(self.processes[i].name(), name) {
                proof {
                    assert(self.names()[i as int] == name@);
                    self.names().index_of_first_ensures(name@);
                    let q = self.names().index_of(name@);
                    assert(self.names()[q] == name@);
                }
                return Some(i);
            }
        }
        proof {
            assert forall|j: int| 0 <= j < self.names().len() implies self.names()[j] != name@ by {}
        }
        None
    }

    /// The position of `name`, or the error that the process is unknown.
    pub fn require(&self, name: &str) -> (r: Result<usize, GuguError>)
        ensures
            r is Ok <==> self.names().contains(name@),
            r matches Ok(i) ==> i == self.index_of_name(name@) && i < self.procs().len(),
            r matches Err(e) ==> e matches GuguError::ProcessNotFound(n) && n@ == name@,
    {
        match self.find(name) {
            Some(i) => Ok(i),
            None => Err(GuguError::ProcessNotFound(String::from_str(name))),
        }
    }

    /// A copy of the configuration of `name`, if there is such a process.
    pub fn process_config(&self, name: &str) -> (r: Option<ProcessConfig>)
        ensures
            r is Some <==> self.names().contains(name@),
            r matches Some(c) ==> c@ == self.procs()[self.index_of_name(name@)].config_view()@,
    {
        match self.find(name) {
            Some(i) => Some(self.processes[i].config().duplicate()),
            None => None,
        }
    }

    /// The reports on all processes, in registration order.
    pub fn snapshot(&self) -> (s: ProcessSnapshot)
        ensures
            s.processes@.len() == self.procs().len(),
            forall|i: int| 0 <= i < self.procs().len() ==> describes(#[trigger] s.processes@[i], self.procs()[i]),
    {
        let mut infos: Vec<ProcessInfo> = Vec::new();
        let n = self.processes.len();
        for i in 0..n
            invariant
                n == self.procs().len(),
                infos@.len() == i,
                forall|j: int| 0 <= j < i ==> describes(#[trigger] infos@[j], self.procs()[j]),
        {
            infos.push(self.processes[i].info());
        }
        ProcessSnapshot { processes: infos }
    }

    /// The configuration to save: the daemon settings and every process's
    /// configuration under its name, in registration order.
    pub fn to_app_config(&self) -> (c: AppConfig)
        ensures
            c.processes.keys() == self.names(),
            c.processes.values().len() == self.procs().len(),
            forall|i: int| 0 <= i < self.procs().len()
                ==> (#[trigger] c.processes.values()[i])@ == self.procs()[i].config_view()@,
            daemon_copied(c.daemon, self.daemon_view()),
    {
        proof { use_type_invariant(self); }
        let mut es: Vec<(String, ProcessConfig)> = Vec::new();
        let n = self.processes.len();
        for i in 0..n
            invariant
                n == self.procs().len(),
                es@.len() == i,
                forall|j: int| 0 <= j < i ==> (#[trigger] es@[j]).0@ == self.names()[j]
                    && es@[j].1@ == self.procs()[j].config_view()@,
        {
            let p = &self.processes[i];
            es.push((String::from_str(p.name()), p.config().duplicate()));
        }
        assert(es@.map_values(|e: (String, ProcessConfig)| e.0@) =~= self.names());
        AppConfig { daemon: copy_daemon(&self.daemon_config), processes: StrMap::from_entries(es) }
    }
}

/// `a` holds the same daemon settings as `b`.
pub open spec fn daemon_copied(a: DaemonConfig, b: DaemonConfig) -> bool {
    &&& opt_view(a.pid_file) == opt_view(b.pid_file)
    &&& opt_view(a.log_dir) == opt_view(b.log_dir)
    &&& opt_view(a.api_key) == opt_view(b.api_key)
    &&& opt_view(a.web.addr) == opt_view(b.web.addr)
    &&& a.web.port == b.web.port
    &&& views(a.web.cors_origins@) == views(b.web.cors_origins@)
}

/// A copy of the daemon settings.
pub fn copy_daemon(d: &DaemonConfig) -> (r: DaemonConfig)
    ensures
        daemon_copied(r, *d),
{
    let origins = d.web.cors_origins.clone();
    assert(views(origins@) =~= views(d.web.cors_origins@)) by {
        assert forall|i: int| 0 <= i < origins@.len() implies origins@[i]@ == d.web.cors_origins@[i]@ by {
            assert(cloned::<String>(d.web.cors_origins[i], origins[i]));
        }
    }
    DaemonConfig {
        pid_file: copy_opt(&d.pid_file),
        log_dir: copy_opt(&d.log_dir),
        api_key: copy_opt(&d.api_key),
        web: WebConfig { addr: copy_opt(&d.web.addr), port: d.web.port, cors_origins: origins },
    }
}

/// The directory the configuration lives in: the parent of the configuration
/// file, else the current directory.
fn config_dir_of(config_path: &Option<String>) -> (r: String)
    ensures
        config_path is None ==> r@ == "."@,
        config_path matches Some(p) ==> {
            &&& p@.len() == 0 ==> r@ == "."@
            &&& plain_name(p@) ==> r@.len() == 0
            &&& r@ == "."@ || (r@.len() < p@.len() && r@.is_prefix_of(p@))
            &&& clear_parent(p@) ==> r@ == parent_part(p@)
        },
{
    match config_path {
        Some(p) => match path_parent(p.as_str()) {
            Some(d) => d,
            None => String::from_str("."),
        },
        None => String::from_str("."),
    }
}

/// Where relative log paths are resolved: the configured log directory,
/// resolved against the configuration directory, else that directory itself.
fn log_base_of(log_dir: &Option<String>, config_dir: &str) -> (r: String)
    ensures
        log_dir is None ==> r@ == config_dir@,
        log_dir matches Some(d) ==> (plain_name(d@) ==> d@.is_suffix_of(r@)),
        log_dir matches Some(d) ==> (plain_name(d@) && joinable(config_dir@) ==> joined_with_separator(
            r@,
            config_dir@,
            d@,
        )),
{
    match log_dir {
        Some(d) => resolve_relative_path(d.as_str(), config_dir),
        None => String::from_str(config_dir),
    }
}

fn resolve_opt(p: &Option<String>, base: &str) -> (r: Option<String>)
    ensures
        r is Some <==> p is Some,
{
    match p {
        Some(s) => Some(resolve_relative_path(s.as_str(), base)),
        None => None,
    }
}

/// The configuration with its working directory resolved against the
/// configuration directory and its log paths against the log directory.
pub fn resolve_paths(c: &ProcessConfig, config_dir: &str, log_base: &str) -> (r: ProcessConfig)
    ensures
        resolved_from(r@, c@),
{
    let mut r = c.duplicate();
    let wd = resolve_opt(&c.working_dir, config_dir);
    let out = resolve_opt(&c.stdout_log, log_base);
    let err = resolve_opt(&c.stderr_log, log_base);
    r.working_dir = wd;
    r.stdout_log = out;
    r.stderr_log = err;
    assert(r@ =~= ProcessConfigView { working_dir: r@.working_dir, stdout_log: r@.stdout_log, stderr_log: r@.stderr_log, ..c@ });
    r
}

/// The state the guardian starts from: one stopped process for every
/// configured one, in configuration order, with paths resolved.
pub fn start(config: &AppConfig, config_path: Option<String>) -> (s: ManagerState)
    ensures
        s.names() == config.processes.keys(),
        forall|i: int| 0 <= i < s.procs().len() ==> is_fresh(#[trigger] s.procs()[i])
            && resolved_from(s.procs()[i].config_view()@, config.processes.values()[i]@),
        s.path_view() == opt_view(config_path),
        daemon_copied(s.daemon_view(), config.daemon),
{
    proof { use_type_invariant(&config.processes); }
    let config_dir = config_dir_of(&config_path);
    let log_base = log_base_of(&config.daemon.log_dir, config_dir.as_str());
    let mut procs: Vec<ManagedProcess> = Vec::new();
    let n = config.processes.len();
    for i in 0..n
        invariant
            n == config.processes.keys().len(),
            n == config.processes.values().len(),
            procs@.len() == i,
            forall|j: int| 0 <= j < i ==> (#[trigger] procs@[j]).name_view() == config.processes.keys()[j]
                && is_fresh(procs@[j])
                && resolved_from(procs@[j].config_view()@, config.processes.values()[j]@),
    {
        let name = config.processes.key_at(i).clone();
        let resolved = resolve_paths(config.processes.value_at(i), config_dir.as_str(), log_base.as_str());
        procs.push(ManagedProcess::new(name, resolved));
    }
    assert(procs@.map_values(|p: ManagedProcess| p.name_view()) =~= config.processes.keys());
    ManagerState { processes: procs, daemon_config: copy_daemon(&config.daemon), config_path }
}

/// What the caller saw when it looked at a child that should be running.
#[derive(Debug, Clone, Copy, PartialEq, Eq)]
pub enum ExitObservation {
    /// The child has exited.
    Exited,
    /// The child's state could not be queried.
    QueryFailed,
    /// There is no child to look at.
    NoChild,
}

/// A health check that is due: which process, how to probe it, and whether a
/// failure should restart it.
#[derive(Debug, Clone)]
pub struct HealthProbe {
    pub name: String,
    pub config: HealthCheckConfig,
    pub unhealthy_restart: bool,
}

/// The processes a round of health checks restarts, in the order of the
/// probes: those whose check failed and that ask to be restarted when
/// unhealthy.
pub open spec fn unhealthy_restarts(probes: Seq<HealthProbe>, healthy: Seq<bool>) -> Seq<Seq<char>>
    decreases probes.len(),
{
    if probes.len() == 0 {
        Seq::empty()
    } else {
        let before = unhealthy_restarts(probes.drop_last(), healthy.drop_last());
        if !healthy.last() && probes.last().unhealthy_restart {
            before.push(probes.last().name@)
        } else {
            before
        }
    }
}

/// The processes to restart after the probes `probes` gave `healthy`, one
/// answer per probe.
pub fn restarts_after_checks(probes: &Vec<HealthProbe>, healthy: &Vec<bool>) -> (r: Vec<String>)
    requires
        probes@.len() == healthy@.len(),
    ensures
        views(r@) == unhealthy_restarts(probes@, healthy@),
{
    let n = probes.len();
    let mut r: Vec<String> = Vec::new();
    for i in 0..n
        invariant
            n == probes@.len(),
            n == healthy@.len(),
            views(r@) == unhealthy_restarts(probes@.take(i as int), healthy@.take(i as int)),
    {
        assert(probes@.take(i + 1).drop_last() =~= probes@.take(i as int));
        assert(healthy@.take(i + 1).drop_last() =~= healthy@.take(i as int));
        if !healthy[i] && probes[i].unhealthy_restart {
            let ghost before = r@;
            r.push(probes[i].name.clone());
            assert(views(r@) =~= views(before).push(probes@[i as int].name@));
        }
    }
    assert(probes@.take(n as int) =~= probes@);
    assert(healthy@.take(n as int) =~= healthy@);
    r
}

/// What a configuration reload leaves for the caller to do, in order.
#[derive(Debug, Clone, PartialEq, Eq)]
pub enum ReloadAction {
    /// Stop the child of a process that is no longer configured.
    Stop(String),
    /// Stop and start again a running process whose launch settings changed.
    Restart(String),
    /// Start a newly configured process that starts automatically.
    Start(String),
}

/// A health check is due when none was made yet, or when at least the check
/// interval has passed since the last one (times in milliseconds).
pub open spec fn health_check_due(last: Option<u64>, now: u64, interval_secs: u64) -> bool {
    match last {
        None => true,
        Some(t) => (if now >= t { now - t } else { 0 }) >= interval_secs * 1000,
    }
}

impl ManagerState {
    /// Applies `op` to the process at `i` through a detour that keeps the
    /// names unique: the processes are taken out, changed, and put back.
    fn take_processes(&mut self) -> (ps: Vec<ManagedProcess>)
        ensures
            ps@ == old(self).procs(),
            final(self).procs() == Seq::<ManagedProcess>::empty(),
            final(self).path_view() == old(self).path_view(),
            final(self).daemon_view() == old(self).daemon_view(),
    {
        let mut ps: Vec<ManagedProcess> = Vec::new();
        std::mem::swap(&mut ps, &mut self.processes);
        assert(self.names() =~= Seq::<Seq<char>>::empty());
        ps
    }

    fn put_processes(&mut self, ps: Vec<ManagedProcess>)
        requires
            old(self).procs() == Seq::<ManagedProcess>::empty(),
            ps@.map_values(|p: ManagedProcess| p.name_view()).no_duplicates(),
        ensures
            final(self).procs() == ps@,
            final(self).path_view() == old(self).path_view(),
            final(self).daemon_view() == old(self).daemon_view(),
    {
        self.processes = ps;
    }

    /// A user's start request: unknown names are refused; otherwise the
    /// crash-restart count is reset and the start begins, unless the process
    /// already runs. On `Ok(i)` the caller spawns process `i`.
    pub fn start_request(&mut self, name: &str) -> (r: Result<usize, GuguError>)
        ensures
            !old(self).names().contains(name@) ==> {
                &&& r matches Err(GuguError::ProcessNotFound(n)) && n@ == name@
                &&& final(self).procs() == old(self).procs()
            },
            old(self).names().contains(name@) ==> {
                let i = old(self).index_of_name(name@);
                let p = old(self).procs()[i].record();
                &&& others_unchanged(old(self).procs(), final(self).procs(), i)
                &&& if is_active(p.status) {
                    &&& r matches Err(GuguError::AlreadyRunning(n)) && n@ == name@
                    &&& final(self).procs()[i].record() == ProcessRecord { crash_count: 0, ..p }
                } else {
                    &&& r == Ok::<usize, GuguError>(i as usize)
                    &&& final(self).procs()[i].record() == ProcessRecord { crash_count: 0, status: ProcessStatus::Starting, ..p }
                }
            },
            final(self).path_view() == old(self).path_view(),
            final(self).daemon_view() == old(self).daemon_view(),
    {
        proof { use_type_invariant(&*self); }
        let i = match self.find(name) {
            Some(i) => i,
            None => return Err(GuguError::ProcessNotFound(String::from_str(name))),
        };
        let mut ps = self.take_processes();
        ps[i].reset_crash_restart_count();
        let r = ps[i].begin_start();
        proof {
            assert(ps@.map_values(|p: ManagedProcess| p.name_view()) =~= old(self).names());
        }
        self.put_processes(ps);
        match r {
            Ok(()) => Ok(i),
            Err(e) => Err(e),
        }
    }

    /// Begins a start of process `i` without touching its crash count, as an
    /// automatic restart does.
    pub fn begin_start_at(&mut self, i: usize) -> (r: Result<(), GuguError>)
        requires
            i < old(self).procs().len(),
        ensures
            ({
                let p = old(self).procs()[i as int].record();
                &&& others_unchanged(old(self).procs(), final(self).procs(), i as int)
                &&& if is_active(p.status) {
                    &&& r matches Err(GuguError::AlreadyRunning(n)) && n@ == p.name
                    &&& final(self).procs()[i as int].record() == p
                } else {
                    &&& r is Ok
                    &&& final(self).procs()[i as int].record() == ProcessRecord { status: ProcessStatus::Starting, ..p }
                }
            }),
            final(self).path_view() == old(self).path_view(),
            final(self).daemon_view() == old(self).daemon_view(),
    {
        proof { use_type_invariant(&*self); }
        let mut ps = self.take_processes();
        let r = ps[i].begin_start();
        proof {
            assert(ps@.map_values(|p: ManagedProcess| p.name_view()) =~= old(self).names());
        }
        self.put_processes(ps);
        r
    }

    /// Process `i` was spawned at time `now` with the given pid.
    pub fn start_succeeded(&mut self, i: usize, pid: Option<u32>, now: i64)
        requires
            i < old(self).procs().len(),
        ensures
            ({
                let p = old(self).procs()[i as int].record();
                &&& others_unchanged(old(self).procs(), final(self).procs(), i as int)
                &&& final(self).procs()[i as int].record() == ProcessRecord {
                    status: ProcessStatus::Running,
                    started_at: Some(now),
                    pid: pid,
                    last_check: None,
                    ..p
                }
            }),
            final(self).path_view() == old(self).path_view(),
            final(self).daemon_view() == old(self).daemon_view(),
    {
        proof { use_type_invariant(&*self); }
        let mut ps = self.take_processes();
        ps[i].finish_start(pid, now);
        proof {
            assert(ps@.map_values(|p: ManagedProcess| p.name_view()) =~= old(self).names());
        }
        self.put_processes(ps);
    }

    /// Process `i` could not be spawned; the error to report is returned.
    pub fn start_failed(&mut self, i: usize, reason: String) -> (e: GuguError)
        requires
            i < old(self).procs().len(),
        ensures
            ({
                let p = old(self).procs()[i as int].record();
                &&& others_unchanged(old(self).procs(), final(self).procs(), i as int)
                &&& final(self).procs()[i as int].record() == ProcessRecord { status: ProcessStatus::Failed(reason), ..p }
                &&& e matches GuguError::StartFailed(n, m) && n@ == p.name && m@ == reason@
            }),
            final(self).path_view() == old(self).path_view(),
            final(self).daemon_view() == old(self).daemon_view(),
    {
        proof { use_type_invariant(&*self); }
        let mut ps = self.take_processes();
        let e = ps[i].fail_start(reason);
        proof {
            assert(ps@.map_values(|p: ManagedProcess| p.name_view()) =~= old(self).names());
        }
        self.put_processes(ps);
        e
    }

    /// A stop request: refused for unknown names and for processes that do
    /// not run. On `Ok(i)` the caller stops the child of process `i`.
    pub fn stop_request(&self, name: &str) -> (r: Result<usize, GuguError>)
        ensures
            !self.names().contains(name@) ==> (r matches Err(GuguError::ProcessNotFound(n)) && n@ == name@),
            self.names().contains(name@) ==> {
                let i = self.index_of_name(name@);
                if is_active(self.procs()[i].status_view()) {
                    r == Ok::<usize, GuguError>(i as usize)
                } else {
                    r matches Err(GuguError::NotRunning(n)) && n@ == name@
                }
            },
    {
        let i = self.require(name)?;
        match self.processes[i].check_can_stop() {
            Ok(()) => Ok(i),
            Err(e) => Err(e),
        }
    }

    /// The child of process `i` is gone.
    pub fn mark_stopped(&mut self, i: usize)
        requires
            i < old(self).procs().len(),
        ensures
            ({
                let p = old(self).procs()[i as int].record();
                &&& others_unchanged(old(self).procs(), final(self).procs(), i as int)
                &&& final(self).procs()[i as int].record() == ProcessRecord { status: ProcessStatus::Stopped, pid: None, ..p }
            }),
            final(self).path_view() == old(self).path_view(),
            final(self).daemon_view() == old(self).daemon_view(),
    {
        proof { use_type_invariant(&*self); }
        let mut ps = self.take_processes();
        ps[i].mark_stopped();
        proof {
            assert(ps@.map_values(|p: ManagedProcess| p.name_view()) =~= old(self).names());
        }
        self.put_processes(ps);
    }

    /// A restart request: refused for unknown names; otherwise the position
    /// and whether the process has to be stopped first.
    pub fn restart_request(&self, name: &str) -> (r: Result<(usize, bool), GuguError>)
        ensures
            !self.names().contains(name@) ==> (r matches Err(GuguError::ProcessNotFound(n)) && n@ == name@),
            self.names().contains(name@) ==> {
                let i = self.index_of_name(name@);
                r == Ok::<(usize, bool), GuguError>((i as usize, is_active(self.procs()[i].status_view())))
            },
    {
        let i = self.require(name)?;
        Ok((i, self.processes[i].is_running()))
    }

    /// What to probe for a health check request: refused for unknown names
    /// and for processes without a health check.
    pub fn health_request(&self, name: &str) -> (r: Result<(usize, HealthCheckConfig), GuguError>)
        ensures
            !self.names().contains(name@) ==> (r matches Err(GuguError::ProcessNotFound(n)) && n@ == name@),
            self.names().contains(name@) ==> {
                let i = self.index_of_name(name@);
                match self.procs()[i].config_view().health_check {
                    Some(hc) => r matches Ok((j, c)) && j == i && c@ == hc@,
                    None => r matches Err(GuguError::ConfigError(m)) && m@ == "该进程未配置健康检查"@,
                }
            },
    {
        let i = self.require(name)?;
        match &self.processes[i].config().health_check {
            Some(hc) => Ok((i, hc.duplicate())),
            None => Err(GuguError::ConfigError(String::from_str("该进程未配置健康检查"))),
        }
    }

    /// Records the outcome of a health check of process `i`.
    pub fn record_health(&mut self, i: usize, healthy: bool)
        requires
            i < old(self).procs().len(),
        ensures
            ({
                let p = old(self).procs()[i as int].record();
                &&& others_unchanged(old(self).procs(), final(self).procs(), i as int)
                &&& final(self).procs()[i as int].record() == ProcessRecord { healthy: Some(healthy), ..p }
            }),
            final(self).path_view() == old(self).path_view(),
            final(self).daemon_view() == old(self).daemon_view(),
    {
        proof { use_type_invariant(&*self); }
        let mut ps = self.take_processes();
        ps[i].set_healthy(Some(healthy));
        proof {
            assert(ps@.map_values(|p: ManagedProcess| p.name_view()) =~= old(self).names());
        }
        self.put_processes(ps);
    }

    /// Whether a process may be added: the name must be new and the
    /// configuration valid.
    pub fn add_request(&self, name: &str, config: &ProcessConfig) -> (r: Result<(), GuguError>)
        ensures
            self.names().contains(name@) ==> (r matches Err(GuguError::ConfigError(m))
                && m@ == "进程 '"@ + name@ + "' 已存在"@),
            !self.names().contains(name@) ==> reports(r, config_problem(*config)),
    {
        if self.find(name).is_some() {
            return Err(GuguError::ConfigError(exists_message(name)));
        }
        config.validate()
    }

    /// Registers a new process as the last one.
    pub fn insert(&mut self, p: ManagedProcess)
        requires
            !old(self).names().contains(p.name_view()),
        ensures
            final(self).procs() == old(self).procs().push(p),
            final(self).path_view() == old(self).path_view(),
            final(self).daemon_view() == old(self).daemon_view(),
    {
        proof { use_type_invariant(&*self); }
        let mut ps = self.take_processes();
        ps.push(p);
        proof {
            assert(ps@.map_values(|q: ManagedProcess| q.name_view()) =~= old(self).names().push(p.name_view()));
        }
        self.put_processes(ps);
    }

    /// An update request: refused for unknown names and invalid
    /// configurations. Otherwise the position, and whether the process must be
    /// stopped now and started again after the update: it runs, and a restart
    /// is forced or the launch settings change.
    pub fn update_request(&self, name: &str, config: &ProcessConfig, force_restart: bool)
        -> (r: Result<(usize, bool), GuguError>)
        ensures
            !self.names().contains(name@) ==> (r matches Err(GuguError::ProcessNotFound(n)) && n@ == name@),
            self.names().contains(name@) && config_problem(*config) is Some ==> reports(
                match r { Ok(_) => Ok(()), Err(e) => Err(e) },
                config_problem(*config),
            ),
            self.names().contains(name@) && config_problem(*config) is None ==> {
                let i = self.index_of_name(name@);
                let p = self.procs()[i];
                match r {
                    Ok((j, restart)) => {
                        &&& j == i
                        &&& (restart ==> is_active(p.status_view()))
                        &&& (is_active(p.status_view()) && force_restart ==> restart)
                        &&& (is_active(p.status_view()) && !force_restart
                            && same_runtime_fields(p.config_view(), *config) ==> !restart)
                        &&& (is_active(p.status_view()) && !launch_alike(p.config_view(), *config) ==> restart)
                    },
                    Err(_) => false,
                }
            },
    {
        let i = self.require(name)?;
        match config.validate() {
            Ok(()) => {},
            Err(e) => return Err(e),
        }
        let p = &self.processes[i];
        let was_running = p.is_running();
        let needs_restart = force_restart || !p.config().runtime_fields_eq(config);
        Ok((i, needs_restart && was_running))
    }

    /// Puts `config` in place for process `i`, then renames it to `new_name`
    /// when that differs from its name. A rename onto a name that is taken is
    /// refused, after the configuration was replaced.
    pub fn apply_update(&mut self, i: usize, config: ProcessConfig, new_name: Option<String>) -> (r: Result<(), GuguError>)
        requires
            i < old(self).procs().len(),
        ensures
            ({
                let p = old(self).procs()[i as int].record();
                let renamed = match new_name {
                    Some(n) => n@ != p.name && !old(self).names().contains(n@),
                    None => false,
                };
                &&& others_unchanged(old(self).procs(), final(self).procs(), i as int)
                &&& match new_name {
                    Some(n) if n@ != p.name && old(self).names().contains(n@) => {
                        &&& r matches Err(GuguError::ConfigError(m)) && m@ == "进程 '"@ + n@ + "' 已存在"@
                        &&& final(self).procs()[i as int].record() == ProcessRecord { config: config, ..p }
                    },
                    Some(n) if renamed => {
                        &&& r is Ok
                        &&& final(self).procs()[i as int].record() == ProcessRecord { config: config, name: n@, ..p }
                    },
                    _ => {
                        &&& r is Ok
                        &&& final(self).procs()[i as int].record() == ProcessRecord { config: config, ..p }
                    },
                }
            }),
            final(self).path_view() == old(self).path_view(),
            final(self).daemon_view() == old(self).daemon_view(),
    {
        proof { use_type_invariant(&*self); }
        let mut target: Option<String> = None;
        let mut result: Result<(), GuguError> = Ok(());
        match new_name {
            Some(n) => {
                if !str_eq(n.as_str(), self.processes[i].name()) {
                    if self.find(n.as_str()).is_some() {
                        result = Err(GuguError::ConfigError(exists_message(n.as_str())));
                    } else {
                        target = Some(n);
                    }
                }
            },
            None => {},
        }
        let mut ps = self.take_processes();
        ps[i].set_config(config);
        match target {
            Some(n) => {
                let ghost nn = n@;
                ps[i].rename(n);
                proof {
                    let old_names = old(self).names();
                    let new_names = ps@.map_values(|p: ManagedProcess| p.name_view());
                    assert(new_names =~= old_names.update(i as int, nn));
                    assert forall|a: int, b: int| 0 <= a < new_names.len() && 0 <= b < new_names.len() && a != b
                        implies new_names[a] != new_names[b] by {
                        if a == i {
                            assert(old_names.contains(old_names[b]));
                        } else if b == i {
                            assert(old_names.contains(old_names[a]));
                        } else {
                            assert(old_names[a] != old_names[b]);
                        }
                    }
                }
            },
            None => {
                proof {
                    assert(ps@.map_values(|p: ManagedProcess| p.name_view()) =~= old(self).names());
                }
            },
        }
        self.put_processes(ps);
        result
    }

    /// A remove request: refused for unknown names; otherwise the position
    /// and whether the process has to be stopped first.
    pub fn remove_request(&self, name: &str) -> (r: Result<(usize, bool), GuguError>)
        ensures
            !self.names().contains(name@) ==> (r matches Err(GuguError::ProcessNotFound(n)) && n@ == name@),
            self.names().contains(name@) ==> {
                let i = self.index_of_name(name@);
                r == Ok::<(usize, bool), GuguError>((i as usize, is_active(self.procs()[i].status_view())))
            },
    {
        self.restart_request(name)
    }

    /// Unregisters process `i`; the others keep their order.
    pub fn remove_at(&mut self, i: usize) -> (p: ManagedProcess)
        requires
            i < old(self).procs().len(),
        ensures
            p == old(self).procs()[i as int],
            final(self).procs() == old(self).procs().remove(i as int),
            final(self).path_view() == old(self).path_view(),
            final(self).daemon_view() == old(self).daemon_view(),
    {
        proof { use_type_invariant(&*self); }
        let mut ps = self.take_processes();
        let p = ps.remove(i);
        proof {
            let old_names = old(self).names();
            let new_names = ps@.map_values(|q: ManagedProcess| q.name_view());
            assert(new_names =~= old_names.remove(i as int));
            assert forall|a: int, b: int| 0 <= a < new_names.len() && 0 <= b < new_names.len() && a != b
                implies new_names[a] != new_names[b] by {
                let a0 = if a < i { a } else { a + 1 };
                let b0 = if b < i { b } else { b + 1 };
                assert(old_names[a0] != old_names[b0]);
            }
        }
        self.put_processes(ps);
        p
    }

    /// The file to reload from, or the error that none is configured.
    pub fn reload_path(&self) -> (r: Result<String, GuguError>)
        ensures
            match self.path_view() {
                Some(p) => r matches Ok(s) && s@ == p,
                None => r matches Err(GuguError::ConfigError(m)) && m@ == "未配置配置文件路径"@,
            },
    {
        match &self.config_path {
            Some(p) => Ok(p.clone()),
            None => Err(GuguError::ConfigError(String::from_str("未配置配置文件路径"))),
        }
    }

    /// The child of running process `i` was found `seen`. The process is
    /// marked stopped (or failed, when its state could not be queried); then,
    /// when its restart budget allows, it is marked restarting with one more
    /// crash counted, and the delay to wait before starting it is returned.
    pub fn child_gone(&mut self, i: usize, seen: ExitObservation) -> (r: Option<std::time::Duration>)
        requires
            i < old(self).procs().len(),
            old(self).procs()[i as int].crash_count() < u32::MAX,
        ensures
            ({
                let p = old(self).procs()[i as int].record();
                let q = match seen {
                    ExitObservation::Exited => ProcessRecord { status: ProcessStatus::Stopped, pid: None, ..p },
                    ExitObservation::QueryFailed => ProcessRecord {
                        status: final(self).procs()[i as int].status_view(),
                        pid: None,
                        ..p
                    },
                    ExitObservation::NoChild => p,
                };
                let restart = p.config.auto_restart && p.crash_count < p.config.max_restarts;
                &&& others_unchanged(old(self).procs(), final(self).procs(), i as int)
                &&& (seen is QueryFailed && !restart ==> (final(self).procs()[i as int].status_view()
                    matches ProcessStatus::Failed(m) && m@ == "检查进程状态失败"@))
                &&& if restart {
                    &&& r == Some(duration_of_secs(p.config.restart_delay_secs))
                    &&& final(self).procs()[i as int].record() == ProcessRecord {
                        status: ProcessStatus::Restarting,
                        crash_count: (p.crash_count + 1) as u32,
                        ..q
                    }
                } else {
                    &&& r is None
                    &&& final(self).procs()[i as int].record() == q
                }
            }),
            final(self).path_view() == old(self).path_view(),
            final(self).daemon_view() == old(self).daemon_view(),
    {
        proof { use_type_invariant(&*self); }
        let mut ps = self.take_processes();
        match seen {
            ExitObservation::Exited => ps[i].mark_stopped(),
            ExitObservation::QueryFailed => ps[i].mark_unknown_exit(),
            ExitObservation::NoChild => {},
        }
        let r = if ps[i].schedule_crash_restart() {
            Some(ps[i].restart_delay())
        } else {
            None
        };
        proof {
            assert(ps@.map_values(|p: ManagedProcess| p.name_view()) =~= old(self).names());
        }
        self.put_processes(ps);
        r
    }

    /// Answers a failed health check of process `i` after its child was
    /// stopped: when the restart budget allows, the process is marked
    /// restarting with one more crash counted and `true` says to start it.
    pub fn schedule_restart_at(&mut self, i: usize) -> (r: bool)
        requires
            i < old(self).procs().len(),
        ensures
            ({
                let p = old(self).procs()[i as int].record();
                let restart = p.config.auto_restart && p.crash_count < p.config.max_restarts;
                &&& r == restart
                &&& others_unchanged(old(self).procs(), final(self).procs(), i as int)
                &&& if restart {
                    final(self).procs()[i as int].record() == ProcessRecord {
                        status: ProcessStatus::Restarting,
                        crash_count: (p.crash_count + 1) as u32,
                        ..p
                    }
                } else {
                    final(self).procs()[i as int].record() == p
                }
            }),
            final(self).path_view() == old(self).path_view(),
            final(self).daemon_view() == old(self).daemon_view(),
    {
        proof { use_type_invariant(&*self); }
        let mut ps = self.take_processes();
        let r = ps[i].schedule_crash_restart();
        proof {
            assert(ps@.map_values(|p: ManagedProcess| p.name_view()) =~= old(self).names());
        }
        self.put_processes(ps);
        r
    }

    /// The health checks due at time `now` (milliseconds of a monotonic
    /// clock), in registration order: running processes with a health check
    /// whose interval has passed. Each of them is marked as checked at `now`.
    pub fn due_health_checks(&mut self, now: u64) -> (r: Vec<HealthProbe>)
        ensures
            final(self).procs().len() == old(self).procs().len(),
            final(self).names() == old(self).names(),
            forall|j: int| 0 <= j < old(self).procs().len() ==> {
                let p = #[trigger] old(self).procs()[j].record();
                let due = is_active(p.status) && p.config.health_check is Some
                    && health_check_due(p.last_check, now, p.config.health_check->0.interval_secs);
                final(self).procs()[j].record() == if due {
                    ProcessRecord { last_check: Some(now), ..p }
                } else {
                    p
                }
            },
            views(r@.map_values(|h: HealthProbe| h.name)) == old(self).names().filter(
                |n: Seq<char>| {
                    let p = old(self).procs()[old(self).names().index_of(n)].record();
                    is_active(p.status) && p.config.health_check is Some
                        && health_check_due(p.last_check, now, p.config.health_check->0.interval_secs)
                },
            ),
            forall|k: int| 0 <= k < r@.len() ==> {
                let p = old(self).procs()[old(self).index_of_name((#[trigger] r@[k]).name@)].record();
                &&& old(self).names().contains(r@[k].name@)
                &&& p.config.health_check matches Some(hc) && r@[k].config@ == hc@
                &&& r@[k].unhealthy_restart == p.config.unhealthy_restart
            },
            final(self).path_view() == old(self).path_view(),
            final(self).daemon_view() == old(self).daemon_view(),
    {
        proof { use_type_invariant(&*self); }
        let ghost names = old(self).names();
        let ghost procs = old(self).procs();
        let ghost due = |n: Seq<char>| {
            let p = procs[names.index_of(n)].record();
            is_active(p.status) && p.config.health_check is Some
                && health_check_due(p.last_check, now, p.config.health_check->0.interval_secs)
        };
        let mut ps = self.take_processes();
        let mut out: Vec<HealthProbe> = Vec::new();
        let n = ps.len();
        for i in 0..n
            invariant
                n == procs.len(),
                due == (|n: Seq<char>| {
                    let p = procs[names.index_of(n)].record();
                    is_active(p.status) && p.config.health_check is Some
                        && health_check_due(p.last_check, now, p.config.health_check->0.interval_secs)
                }),
                names == procs.map_values(|p: ManagedProcess| p.name_view()),
                names.no_duplicates(),
                ps@.len() == n,
                forall|j: int| i <= j < n ==> ps@[j] == procs[j],
                forall|j: int| 0 <= j < i ==> {
                    let p = #[trigger] procs[j].record();
                    let d = is_active(p.status) && p.config.health_check is Some
                        && health_check_due(p.last_check, now, p.config.health_check->0.interval_secs);
                    ps@[j].record() == if d { ProcessRecord { last_check: Some(now), ..p } } else { p }
                },
                views(out@.map_values(|h: HealthProbe| h.name)) == names.take(i as int).filter(due),
                forall|k: int| 0 <= k < out@.len() ==> {
                    let p = procs[names.index_of((#[trigger] out@[k]).name@)].record();
                    &&& names.contains(out@[k].name@)
                    &&& p.config.health_check matches Some(hc) && out@[k].config@ == hc@
                    &&& out@[k].unhealthy_restart == p.config.unhealthy_restart
                },
        {
            proof {
                reveal(Seq::filter);
                assert(names.take(i + 1).drop_last() =~= names.take(i as int));
                assert(names[i as int] == procs[i as int].name_view());
                assert(names.index_of(names[i as int]) == i) by {
                    names.index_of_first_ensures(names[i as int]);
                    let q = names.index_of(names[i as int]);
                    assert(names[q] == names[i as int]);
                }
            }
            let ghost before = out@;
            let ghost rec = procs[i as int].record();
            let ghost is_due = is_active(rec.status) && rec.config.health_check is Some
                && health_check_due(rec.last_check, now, rec.config.health_check->0.interval_secs);
            assert(due(names[i as int]) == is_due);
            assert(ps@[i as int] == procs[i as int]);
            if ps[i].is_running() {
                match &ps[i].config().health_check {
                    Some(hc) => {
                        let should = match ps[i].last_health_check() {
                            None => true,
                            Some(last) => {
                                let elapsed: u64 = if now >= last { now - last } else { 0 };
                                (elapsed as u128) >= (hc.interval_secs as u128) * 1000
                            },
                        };
                        if should {
                            let probe = HealthProbe {
                                name: String::from_str(ps[i].name()),
                                config: hc.duplicate(),
                                unhealthy_restart: ps[i].config().unhealthy_restart,
                            };
                            ps[i].set_last_health_check(Some(now));
                            out.push(probe);
                            proof {
                                assert(probe.name@ == names[i as int]);
                                assert(out@.map_values(|h: HealthProbe| h.name) =~= before.map_values(|h: HealthProbe| h.name).push(probe.name));
                                assert(views(out@.map_values(|h: HealthProbe| h.name)) =~= views(before.map_values(|h: HealthProbe| h.name)).push(names[i as int]));
                                assert(due(names[i as int]));
                            }
                        }
                    },
                    None => {},
                }
            }
            proof {
                if out@.len() == before.len() {
                    assert(out@ == before);
                    assert(!due(names[i as int]));
                }
                assert(names.take(i + 1).last() == names[i as int]);
                assert(views(out@.map_values(|h: HealthProbe| h.name)) =~= names.take(i + 1).filter(due));
            }
        }
        proof {
            assert(names.take(n as int) =~= names);
            assert forall|j: int| 0 <= j < n implies (#[trigger] ps@[j]).name_view() == names[j] by {
                assert(ps@[j].record().name == procs[j].record().name);
            }
            assert(ps@.map_values(|p: ManagedProcess| p.name_view()) =~= names);
        }
        self.put_processes(ps);
        out
    }
}

/// The message that a process name is taken.
fn exists_message(name: &str) -> (m: String)
    ensures
        m@ == "进程 '"@ + name@ + "' 已存在"@,
{
    let mut m = String::from_str("进程 '");
    m.append(name);
    m.append("' 已存在");
    m
}

/// The names in `names` that `keep` holds.
pub open spec fn kept_names(names: Seq<Seq<char>>, keep: Seq<Seq<char>>) -> Seq<Seq<char>> {
    names.filter(|n: Seq<char>| keep.contains(n))
}

impl ManagerState {
    /// The first part of a configuration reload: the daemon settings are
    /// replaced and every process that the new configuration does not name is
    /// unregistered. Returns the names of those among them that were running,
    /// in registration order, for the caller to stop.
    pub fn begin_reload(&mut self, new_config: &AppConfig) -> (stops: Vec<String>)
        ensures
            daemon_copied(final(self).daemon_view(), new_config.daemon),
            final(self).path_view() == old(self).path_view(),
            final(self).procs() == old(self).procs().filter(|p: ManagedProcess| new_config.processes.keys().contains(p.name_view())),
            views(stops@) == old(self).procs().filter(
                |p: ManagedProcess| !new_config.processes.keys().contains(p.name_view()) && is_active(p.status_view()),
            ).map_values(|p: ManagedProcess| p.name_view()),
    {
        proof { use_type_invariant(&*self); }
        let ghost keep = |p: ManagedProcess| new_config.processes.keys().contains(p.name_view());
        let ghost stop = |p: ManagedProcess| !new_config.processes.keys().contains(p.name_view()) && is_active(p.status_view());
        let ghost procs = old(self).procs();
        let mut ps = self.take_processes();
        self.daemon_config = copy_daemon(&new_config.daemon);
        let mut kept: Vec<ManagedProcess> = Vec::new();
        let mut stops: Vec<String> = Vec::new();
        let n = ps.len();
        for i in 0..n
            invariant
                n == procs.len(),
                keep == (|p: ManagedProcess| new_config.processes.keys().contains(p.name_view())),
                stop == (|p: ManagedProcess| !new_config.processes.keys().contains(p.name_view()) && is_active(p.status_view())),
                ps@.len() == n - i,
                forall|j: int| 0 <= j < n - i ==> ps@[j] == procs[i + j],
                kept@ == procs.take(i as int).filter(keep),
                views(stops@) == procs.take(i as int).filter(stop).map_values(|p: ManagedProcess| p.name_view()),
        {
            proof {
                reveal(Seq::filter);
                assert(procs.take(i + 1).drop_last() =~= procs.take(i as int));
                assert(procs.take(i + 1).last() == procs[i as int]);
            }
            let p = ps.remove(0);
            if new_config.processes.contains_key(p.name()) {
                kept.push(p);
                proof {
                    assert(views(stops@) =~= procs.take(i + 1).filter(stop).map_values(|p: ManagedProcess| p.name_view()));
                }
            } else {
                if p.is_running() {
                    let ghost before = stops@;
                    stops.push(String::from_str(p.name()));
                    proof {
                        assert(views(stops@) =~= views(before).push(p.name_view()));
                        assert(procs.take(i + 1).filter(stop) =~= procs.take(i as int).filter(stop).push(p));
                        assert(views(stops@) =~= procs.take(i + 1).filter(stop).map_values(|p: ManagedProcess| p.name_view()));
                    }
                } else {
                    assert(views(stops@) =~= procs.take(i + 1).filter(stop).map_values(|p: ManagedProcess| p.name_view()));
                }
            }
        }
        proof {
            assert(procs.take(n as int) =~= procs);
            let kn = kept@.map_values(|p: ManagedProcess| p.name_view());
            let on = procs.map_values(|p: ManagedProcess| p.name_view());
            // A sublist of distinct names has distinct names.
            assert(kn.no_duplicates()) by {
                assert forall|a: int, b: int| 0 <= a < kn.len() && 0 <= b < kn.len() && a != b implies kn[a] != kn[b] by {
                    lemma_filter_distinct_names(procs, keep, a, b);
                }
            }
        }
        self.put_processes(kept);
        stops
    }
}

/// Two entries of a filtered list of processes with distinct names have
/// distinct names.
proof fn lemma_filter_distinct_names(ps: Seq<ManagedProcess>, keep: spec_fn(ManagedProcess) -> bool, a: int, b: int)
    requires
        ps.map_values(|p: ManagedProcess| p.name_view()).no_duplicates(),
        0 <= a < ps.filter(keep).len(),
        0 <= b < ps.filter(keep).len(),
        a != b,
    ensures
        ps.filter(keep)[a].name_view() != ps.filter(keep)[b].name_view(),
    decreases ps.len(),
{
    reveal(Seq::filter);
    let f = ps.filter(keep);
    let init = ps.drop_last();
    assert(init.map_values(|p: ManagedProcess| p.name_view()).no_duplicates()) by {
        let on = ps.map_values(|p: ManagedProcess| p.name_view());
        let inn = init.map_values(|p: ManagedProcess| p.name_view());
        assert forall|x: int, y: int| 0 <= x < inn.len() && 0 <= y < inn.len() && x != y implies inn[x] != inn[y] by {
            assert(inn[x] == on[x]);
            assert(inn[y] == on[y]);
        }
    }
    if keep(ps.last()) {
        let fi = init.filter(keep);
        assert(f == fi.push(ps.last()));
        if a < fi.len() && b < fi.len() {
            lemma_filter_distinct_names(init, keep, a, b);
        } else {
            // One of them is the last process; the other comes from the rest.
            let other = if a < fi.len() { a } else { b };
            assert(other < fi.len());
            let q = crate::text::lemma_filter_member(init, keep, other);
            let on = ps.map_values(|p: ManagedProcess| p.name_view());
            assert(on[q] == fi[other].name_view());
            assert(on[ps.len() - 1] == ps.last().name_view());
            assert(q != ps.len() - 1);
        }
    } else {
        assert(f == init.filter(keep));
        lemma_filter_distinct_names(init, keep, a, b);
    }
}

/// The processes a reload keeps, followed by the valid new ones.
/// What a reload asks of the children is justified: a stop is for a
/// process that ran and is no longer configured; a restart for one that
/// ran and whose launch settings changed; a start for a newly configured
/// process that starts on its own.
pub open spec fn reload_action_sound(old: ManagerState, new: ManagerState, cfg: AppConfig, a: ReloadAction) -> bool {
    match a {
        ReloadAction::Stop(n) => !cfg.processes.keys().contains(n@) && exists|q: int|
            0 <= q < old.procs().len() && #[trigger] old.procs()[q].name_view() == n@ && is_active(old.procs()[q].status_view()),
        ReloadAction::Restart(n) => exists|q: int, m: int| {
            &&& 0 <= q < old.procs().len()
            &&& 0 <= m < new.procs().len()
            &&& #[trigger] old.procs()[q].name_view() == n@
            &&& #[trigger] new.procs()[m].name_view() == n@
            &&& is_active(old.procs()[q].status_view())
            &&& !same_runtime_fields(old.procs()[q].config_view(), new.procs()[m].config_view())
        },
        ReloadAction::Start(n) => !old.names().contains(n@) && cfg.processes.keys().contains(n@)
            && cfg.processes.to_map()[n@].auto_start && new.names().contains(n@),
    }
}

pub open spec fn names_after_reload(old_names: Seq<Seq<char>>, new_config: AppConfig) -> Seq<Seq<char>> {
    let keys = new_config.processes.keys();
    kept_names(old_names, keys) + keys.filter(|k: Seq<char>|
        !old_names.contains(k) && config_problem(new_config.processes.to_map()[k]) is None)
}

impl ManagerState {
    /// Applies entry `k` of a new configuration. An invalid entry is skipped.
    /// A known process takes the new configuration (paths resolved) and is
    /// to be restarted when it runs and its launch settings changed. An
    /// unknown one is registered as a fresh process, to be started when it
    /// starts automatically.
    pub fn reload_entry(&mut self, new_config: &AppConfig, k: usize) -> (act: Option<ReloadAction>)
        requires
            k < new_config.processes.keys().len(),
        ensures
            final(self).path_view() == old(self).path_view(),
            final(self).daemon_view() == old(self).daemon_view(),
            ({
                let name = new_config.processes.keys()[k as int];
                let cfg = new_config.processes.values()[k as int];
                if config_problem(cfg) is Some {
                    &&& final(self).procs() == old(self).procs()
                    &&& act is None
                } else if old(self).names().contains(name) {
                    let i = old(self).index_of_name(name);
                    let p = old(self).procs()[i].record();
                    let c = final(self).procs()[i].config_view();
                    &&& others_unchanged(old(self).procs(), final(self).procs(), i)
                    &&& final(self).procs()[i].record() == ProcessRecord { config: c, ..p }
                    &&& resolved_from(c@, cfg@)
                    &&& (act is None || (act matches Some(ReloadAction::Restart(n)) && n@ == name))
                    &&& (act is Some ==> is_active(p.status))
                    &&& (same_runtime_fields(p.config, c) ==> act is None)
                    &&& (is_active(p.status) && !launch_alike(p.config, c) ==> act is Some)
                } else {
                    let q = final(self).procs().last();
                    &&& final(self).procs() == old(self).procs().push(q)
                    &&& q.name_view() == name
                    &&& is_fresh(q)
                    &&& resolved_from(q.config_view()@, cfg@)
                    &&& if cfg.auto_start {
                        act matches Some(ReloadAction::Start(n)) && n@ == name
                    } else {
                        act is None
                    }
                }
            }),
    {
        proof {
            use_type_invariant(&*self);
            use_type_invariant(&new_config.processes);
        }
        let cfg = new_config.processes.value_at(k);
        let name = new_config.processes.key_at(k);
        if cfg.validate().is_err() {
            return None;
        }
        let config_dir = config_dir_of(&self.config_path);
        let log_base = log_base_of(&self.daemon_config.log_dir, config_dir.as_str());
        let resolved = resolve_paths(cfg, config_dir.as_str(), log_base.as_str());
        match self.find(name.as_str()) {
            Some(i) => {
                let was_running = self.processes[i].is_running();
                let needs_restart = was_running && !self.processes[i].config().runtime_fields_eq(&resolved);
                let mut ps = self.take_processes();
                ps[i].set_config(resolved);
                proof {
                    assert(ps@.map_values(|p: ManagedProcess| p.name_view()) =~= old(self).names());
                }
                self.put_processes(ps);
                if needs_restart {
                    Some(ReloadAction::Restart(name.clone()))
                } else {
                    None
                }
            },
            None => {
                let p = ManagedProcess::new(name.clone(), resolved);
                self.insert(p);
                if cfg.auto_start {
                    Some(ReloadAction::Start(name.clone()))
                } else {
                    None
                }
            },
        }
    }

    /// Reloads the configuration: processes that are no longer configured
    /// are unregistered, known ones take their new configuration and new ones
    /// are registered. Returns what the caller has to do, in order: stop the
    /// unregistered processes that ran, then restart or start processes as
    /// the entries require.
    pub fn reload(&mut self, new_config: &AppConfig) -> (actions: Vec<ReloadAction>)
        ensures
            final(self).names() == names_after_reload(old(self).names(), *new_config),
            daemon_copied(final(self).daemon_view(), new_config.daemon),
            final(self).path_view() == old(self).path_view(),
            forall|a: int| 0 <= a < actions@.len() ==> reload_action_sound(*old(self), *final(self), *new_config, #[trigger] actions@[a]),
            forall|q: int| 0 <= q < old(self).procs().len() && is_active(#[trigger] old(self).procs()[q].status_view())
                && !new_config.processes.keys().contains(old(self).procs()[q].name_view())
                ==> exists|a: int| 0 <= a < actions@.len() && (#[trigger] actions@[a] matches ReloadAction::Stop(n) && n@ == old(self).procs()[q].name_view()),
            forall|k: int| 0 <= k < new_config.processes.keys().len() && !old(self).names().contains(#[trigger] new_config.processes.keys()[k])
                && config_problem(new_config.processes.values()[k]) is None && new_config.processes.values()[k].auto_start
                ==> exists|a: int| 0 <= a < actions@.len() && (#[trigger] actions@[a] matches ReloadAction::Start(n) && n@ == new_config.processes.keys()[k]),
            forall|q: int, m: int|
                #![trigger old(self).procs()[q], final(self).procs()[m]]
                0 <= q < old(self).procs().len() && 0 <= m < final(self).procs().len()
                && old(self).procs()[q].name_view() == final(self).procs()[m].name_view()
                && is_active(old(self).procs()[q].status_view())
                && !launch_alike(old(self).procs()[q].config_view(), final(self).procs()[m].config_view())
                ==> exists|a: int| 0 <= a < actions@.len() && (#[trigger] actions@[a] matches ReloadAction::Restart(n) && n@ == old(self).procs()[q].name_view()),
            forall|m: int|
                0 <= m < final(self).procs().len() && new_config.processes.keys().contains(#[trigger] final(self).procs()[m].name_view())
                && config_problem(new_config.processes.to_map()[final(self).procs()[m].name_view()]) is None
                ==> resolved_from(final(self).procs()[m].config_view()@, new_config.processes.to_map()[final(self).procs()[m].name_view()]@),
    {
        proof { use_type_invariant(&new_config.processes); }
        proof { use_type_invariant(&*self); }
        let ghost keys = new_config.processes.keys();
        let ghost old_state = *old(self);
        let ghost old_procs = old(self).procs();
        let ghost old_names = old(self).names();
        let ghost fresh = |kk: Seq<char>|
            !old_names.contains(kk) && config_problem(new_config.processes.to_map()[kk]) is None;
        let ghost keep = |p: ManagedProcess| new_config.processes.keys().contains(p.name_view());
        let ghost stop = |p: ManagedProcess| !new_config.processes.keys().contains(p.name_view()) && is_active(p.status_view());
        let stops = self.begin_reload(new_config);
        let ghost kept_len = self.procs().len();
        let ghost orig: Seq<int> = Seq::new(kept_len, |m: int| choose|q: int| 0 <= q < old_procs.len() && old_procs[q] == self.procs()[m]);
        proof {
            lemma_filter_names(old(self).procs(), keys);
            assert(self.names() == kept_names(old_names, keys));
            assert forall|m: int| 0 <= m < kept_len implies 0 <= #[trigger] orig[m] < old_procs.len() && old_procs[orig[m]] == self.procs()[m] by {
                let q = crate::text::lemma_filter_member(old_procs, keep, m);
            }
        }
        let mut actions: Vec<ReloadAction> = Vec::new();
        let sn = stops.len();
        for j in 0..sn
            invariant
                sn == stops@.len(),
                actions@.len() == j,
                forall|t: int| 0 <= t < j ==> (#[trigger] actions@[t] matches ReloadAction::Stop(n) && n@ == stops@[t]@),
        {
            let nm = stops[j].clone();
            actions.push(ReloadAction::Stop(nm));
        }
        proof {
            assert(stop =~= (|p: ManagedProcess| !new_config.processes.keys().contains(p.name_view()) && is_active(p.status_view())));
            assert(views(stops@) == old_procs.filter(stop).map_values(|p: ManagedProcess| p.name_view()));
            assert(views(stops@).len() == stops@.len());
            assert(old_procs.filter(stop).map_values(|p: ManagedProcess| p.name_view()).len() == old_procs.filter(stop).len());
            assert(stops@.len() == old_procs.filter(stop).len());
            // Every stop names a process that was running and is no longer configured.
            assert forall|t: int| 0 <= t < actions@.len() implies reload_action_sound(old_state, *self, *new_config, #[trigger] actions@[t]) by {
                let w = crate::text::lemma_filter_member(old_procs, stop, t);
                assert(views(stops@)[t] == old_procs.filter(stop)[t].name_view());
            }
        }
        let n = new_config.processes.len();
        for k in 0..n
            invariant
                n == keys.len(),
                keys == new_config.processes.keys(),
                keys.no_duplicates(),
                old_state == *old(self),
                old_procs == old_state.procs(),
                old_names == old_state.names(),
                fresh == (|kk: Seq<char>|
                    !old_names.contains(kk) && config_problem(new_config.processes.to_map()[kk]) is None),
                self.names() == kept_names(old_names, keys) + keys.take(k as int).filter(fresh),
                kept_len == kept_names(old_names, keys).len(),
                orig.len() == kept_len,
                forall|m: int| 0 <= m < kept_len ==> {
                    &&& 0 <= #[trigger] orig[m] < old_procs.len()
                    &&& self.procs()[m].name_view() == old_procs[orig[m]].name_view()
                    &&& self.procs()[m].status_view() == old_procs[orig[m]].status_view()
                    &&& (!keys.take(k as int).contains(self.procs()[m].name_view())
                        ==> self.procs()[m].config_view() == old_procs[orig[m]].config_view())
                },
                sn == stops@.len(),
                sn <= actions@.len(),
                forall|t: int| 0 <= t < sn ==> (#[trigger] actions@[t] matches ReloadAction::Stop(n) && n@ == stops@[t]@),
                forall|a: int| 0 <= a < actions@.len() ==> reload_action_sound(old_state, *self, *new_config, #[trigger] actions@[a]),
                forall|a: int| 0 <= a < actions@.len() ==> (#[trigger] actions@[a] matches ReloadAction::Restart(nm) ==> keys.take(k as int).contains(nm@)),
                old_names.no_duplicates(),
                forall|m: int| 0 <= m < kept_len && keys.take(k as int).contains(#[trigger] self.procs()[m].name_view()) ==> {
                    &&& (config_problem(new_config.processes.to_map()[self.procs()[m].name_view()]) is Some
                        ==> self.procs()[m].config_view() == old_procs[orig[m]].config_view())
                    &&& (is_active(old_procs[orig[m]].status_view())
                        && !launch_alike(old_procs[orig[m]].config_view(), self.procs()[m].config_view())
                        ==> exists|a: int| 0 <= a < actions@.len() && (#[trigger] actions@[a] matches ReloadAction::Restart(n) && n@ == self.procs()[m].name_view()))
                },
                forall|j: int| 0 <= j < k && !old_names.contains(#[trigger] keys[j])
                    && config_problem(new_config.processes.values()[j]) is None && new_config.processes.values()[j].auto_start
                    ==> exists|a: int| 0 <= a < actions@.len() && (#[trigger] actions@[a] matches ReloadAction::Start(n) && n@ == keys[j]),
                daemon_copied(self.daemon_view(), new_config.daemon),
                self.path_view() == old(self).path_view(),
                forall|m: int| 0 <= m < kept_len && keys.take(k as int).contains(#[trigger] self.procs()[m].name_view())
                    && config_problem(new_config.processes.to_map()[self.procs()[m].name_view()]) is None
                    ==> resolved_from(self.procs()[m].config_view()@, new_config.processes.to_map()[self.procs()[m].name_view()]@),
                forall|m: int| kept_len <= m < self.procs().len() ==> resolved_from(
                    (#[trigger] self.procs()[m]).config_view()@,
                    new_config.processes.to_map()[self.procs()[m].name_view()]@,
                ),
        {
            let ghost before = self.names();
            let ghost before_state = *self;
            let ghost name = keys[k as int];
            proof {
                use_type_invariant(&*self);
                reveal(Seq::filter);
                assert(keys.take(k + 1).drop_last() =~= keys.take(k as int));
                assert(keys.take(k + 1).last() == name);
                assert(new_config.processes.to_map()[name] == new_config.processes.values()[k as int]) by {
                    keys.index_of_first_ensures(name);
                    let q = keys.index_of(name);
                    assert(keys[q] == name);
                }
                // `name` is already registered exactly when the reload kept it.
                assert(before.contains(name) <==> old_names.contains(name)) by {
                    lemma_kept_or_fresh(old_names, keys, k as int);
                }
                assert(!keys.take(k as int).contains(name)) by {
                    if keys.take(k as int).contains(name) {
                        let r = choose|r: int| 0 <= r < k && keys.take(k as int)[r] == name;
                        assert(keys[r] == keys[k as int]);
                    }
                }
                // Processes past the kept ones were added by this reload.
                assert forall|m: int| kept_len <= m < before.len() implies !old_names.contains(#[trigger] before[m]) by {
                    let tf = keys.take(k as int).filter(fresh);
                    assert(before[m] == tf[m - kept_len]);
                    let r = crate::text::lemma_filter_member(keys.take(k as int), fresh, m - kept_len);
                }
            }
            let ghost before_actions = actions@;
            proof { use_type_invariant(&*self); }
            let ghost before_unique = self.names().no_duplicates();
            let act = self.reload_entry(new_config, k);
            let ghost gact = act;
            proof {
                use_type_invariant(&*self);
                let cfg = new_config.processes.values()[k as int];
                if config_problem(cfg) is None && !before.contains(name) {
                    assert(self.names() =~= before.push(name));
                } else if config_problem(cfg) is None {
                    assert(self.names() =~= before);
                } else {
                    assert(self.names() =~= before);
                }
                assert(self.names() =~= kept_names(old_names, keys) + keys.take(k + 1).filter(fresh));
                // The kept processes keep their origin.
                assert forall|m: int| 0 <= m < kept_len implies {
                    &&& 0 <= #[trigger] orig[m] < old_procs.len()
                    &&& self.procs()[m].name_view() == old_procs[orig[m]].name_view()
                    &&& self.procs()[m].status_view() == old_procs[orig[m]].status_view()
                    &&& (!keys.take(k + 1).contains(self.procs()[m].name_view())
                        ==> self.procs()[m].config_view() == old_procs[orig[m]].config_view())
                } by {
                    assert(self.procs()[m].name_view() == self.names()[m]);
                    assert(before_state.procs()[m].name_view() == before[m]);
                    if keys.take(k as int).contains(before_state.procs()[m].name_view()) {
                        let r = choose|r: int| 0 <= r < k && keys.take(k as int)[r] == before_state.procs()[m].name_view();
                        assert(keys.take(k + 1)[r] == keys.take(k as int)[r]);
                    }
                    if config_problem(cfg) is None && before.contains(name) {
                        let i = before_state.index_of_name(name);
                        if m == i {
                            assert(keys.take(k + 1)[k as int] == name);
                            assert(self.procs()[m].name_view() == name);
                        }
                    }
                }
                // The earlier actions stay sound.
                assert forall|a: int| 0 <= a < actions@.len() implies reload_action_sound(old_state, *self, *new_config, #[trigger] actions@[a]) by {
                    assert(reload_action_sound(old_state, before_state, *new_config, actions@[a]));
                    match actions@[a] {
                        ReloadAction::Restart(nm) => {
                            let (q, m) = choose|q: int, m: int| {
                                &&& 0 <= q < old_procs.len()
                                &&& 0 <= m < before_state.procs().len()
                                &&& #[trigger] old_procs[q].name_view() == nm@
                                &&& #[trigger] before_state.procs()[m].name_view() == nm@
                                &&& is_active(old_procs[q].status_view())
                                &&& !same_runtime_fields(old_procs[q].config_view(), before_state.procs()[m].config_view())
                            };
                            if config_problem(cfg) is None && before.contains(name) {
                                let i = before_state.index_of_name(name);
                                if m == i {
                                    assert(before[m] == name);
                                    assert(before[m] == nm@);
                                    // Earlier restarts are for keys handled before this one.
                                    assert(keys.take(k as int).contains(nm@));
                                }
                            }
                            assert(self.procs()[m] == before_state.procs()[m]);
                        },
                        ReloadAction::Start(nm) => {
                            assert(before.contains(nm@));
                            let w = choose|w: int| 0 <= w < before.len() && before[w] == nm@;
                            assert(self.names()[w] == nm@);
                        },
                        ReloadAction::Stop(_) => {},
                    }
                }
            }
            match act {
                Some(a) => {
                    let ghost prev = actions@;
                    actions.push(a);
                    proof {
                        assert forall|t: int| 0 <= t < actions@.len() - 1 implies actions@[t] == prev[t] by {}
                        let cfg = new_config.processes.values()[k as int];
                        assert(keys.take(k + 1)[k as int] == name);
                        let ga = actions@[actions@.len() - 1];
                        match ga {
                            ReloadAction::Restart(nm) => {
                                let i = before_state.index_of_name(name);
                                assert(before.contains(name));
                                assert(0 <= i < before.len() && before[i] == name) by {
                                    before.index_of_first_ensures(name);
                                }
                                assert(i < kept_len);
                                let q = orig[i];
                                assert(old_procs[q].name_view() == name);
                                assert(before_state.procs()[i].name_view() == name);
                                assert(old_procs[q].config_view() == before_state.procs()[i].config_view());
                                assert(self.procs()[i].name_view() == name);
                                assert(reload_action_sound(old_state, *self, *new_config, ga));
                            },
                            ReloadAction::Start(nm) => {
                                assert(self.names()[self.names().len() - 1] == name);
                                assert(self.names().contains(name));
                                assert(keys[k as int] == name);
                                assert(keys.contains(name));
                            },
                            ReloadAction::Stop(_) => {},
                        }
                    }
                },
                None => {},
            }
            proof {
                assert forall|j: int| 0 <= j < k + 1 && !old_names.contains(#[trigger] keys[j])
                    && config_problem(new_config.processes.values()[j]) is None && new_config.processes.values()[j].auto_start
                    implies exists|a: int| 0 <= a < actions@.len() && (#[trigger] actions@[a] matches ReloadAction::Start(n) && n@ == keys[j]) by {
                    if j == k {
                        assert(actions@[actions@.len() - 1] matches ReloadAction::Start(n) && n@ == keys[j]);
                    }
                }
                // Processed processes hold their new configuration.
                assert forall|m: int| 0 <= m < kept_len && keys.take(k + 1).contains(#[trigger] self.procs()[m].name_view())
                    && config_problem(new_config.processes.to_map()[self.procs()[m].name_view()]) is None
                    implies resolved_from(self.procs()[m].config_view()@, new_config.processes.to_map()[self.procs()[m].name_view()]@) by {
                    let nm = self.procs()[m].name_view();
                    let cfg = new_config.processes.values()[k as int];
                    assert(self.names()[m] == nm);
                    assert(before[m] == before_state.procs()[m].name_view());
                    if nm == name {
                        assert(old_names.contains(nm));
                        assert(before.contains(name));
                        let i = before_state.index_of_name(name);
                        assert(0 <= i < before.len() && before[i] == name) by {
                            before.index_of_first_ensures(name);
                        }
                        assert(before[m] == self.names()[m]);
                        assert(m == i);
                    } else {
                        assert(keys.take(k + 1)[k as int] == name);
                        assert(keys.take(k as int).contains(nm)) by {
                            let r = choose|r: int| 0 <= r < k + 1 && #[trigger] keys.take(k + 1)[r] == nm;
                            assert(r != k);
                            assert(keys.take(k as int)[r] == nm);
                        }
                        if config_problem(cfg) is None && before.contains(name) {
                            let i = before_state.index_of_name(name);
                            assert(0 <= i < before.len() && before[i] == name) by {
                                before.index_of_first_ensures(name);
                            }
                            assert(m != i);
                        }
                        assert(self.procs()[m] == before_state.procs()[m]);
                    }
                }
                assert forall|m: int| kept_len <= m < self.procs().len() implies resolved_from(
                    (#[trigger] self.procs()[m]).config_view()@,
                    new_config.processes.to_map()[self.procs()[m].name_view()]@,
                ) by {
                    let cfg = new_config.processes.values()[k as int];
                    if config_problem(cfg) is None && !before.contains(name) && m == self.procs().len() - 1 {
                        assert(self.procs()[m].name_view() == name);
                    } else {
                        if config_problem(cfg) is None && before.contains(name) {
                            let i = before_state.index_of_name(name);
                            assert(0 <= i < before.len() && before[i] == name) by {
                                before.index_of_first_ensures(name);
                            }
                            assert(i < kept_len) by {
                                if i >= kept_len {
                                    assert(!old_names.contains(before[i]));
                                }
                            }
                        }
                        assert(m < before_state.procs().len());
                        assert(self.procs()[m] == before_state.procs()[m]);
                    }
                }
                // Processed kept processes: a restart whenever the launch settings changed.
                assert forall|m: int| 0 <= m < kept_len && keys.take(k + 1).contains(#[trigger] self.procs()[m].name_view()) implies {
                    &&& (config_problem(new_config.processes.to_map()[self.procs()[m].name_view()]) is Some
                        ==> self.procs()[m].config_view() == old_procs[orig[m]].config_view())
                    &&& (is_active(old_procs[orig[m]].status_view())
                        && !launch_alike(old_procs[orig[m]].config_view(), self.procs()[m].config_view())
                        ==> exists|a: int| 0 <= a < actions@.len() && (#[trigger] actions@[a] matches ReloadAction::Restart(n) && n@ == self.procs()[m].name_view()))
                } by {
                    let nm = self.procs()[m].name_view();
                    let cfg = new_config.processes.values()[k as int];
                    assert(self.names()[m] == nm);
                    assert(before[m] == before_state.procs()[m].name_view());
                    assert forall|t: int| 0 <= t < before_actions.len() implies actions@[t] == before_actions[t] by {}
                    if nm == name {
                        assert(old_names.contains(nm));
                        assert(before.contains(name));
                        let i = before_state.index_of_name(name);
                        assert(0 <= i < before.len() && before[i] == name) by {
                            before.index_of_first_ensures(name);
                        }
                        if config_problem(cfg) is None {
                            assert(before[m] == self.names()[m]);
                            assert(m == i);
                            if is_active(old_procs[orig[m]].status_view())
                                && !launch_alike(old_procs[orig[m]].config_view(), self.procs()[m].config_view()) {
                                assert(gact matches Some(ReloadAction::Restart(rn)) && rn@ == name);
                                assert(actions@[actions@.len() - 1] == gact->0);
                            }
                        } else {
                            assert(self.procs()[m] == before_state.procs()[m]);
                        }
                    } else {
                        assert(keys.take(k + 1)[k as int] == name);
                        assert(keys.take(k as int).contains(nm)) by {
                            let r = choose|r: int| 0 <= r < k + 1 && #[trigger] keys.take(k + 1)[r] == nm;
                            assert(r != k);
                            assert(keys.take(k as int)[r] == nm);
                        }
                        if config_problem(cfg) is None && before.contains(name) {
                            let i = before_state.index_of_name(name);
                            assert(0 <= i < before.len() && before[i] == name) by {
                                before.index_of_first_ensures(name);
                            }
                            assert(m != i);
                        }
                        assert(self.procs()[m] == before_state.procs()[m]);
                        assert(before_state.procs()[m].name_view() == nm);
                    }
                }
            }
        }
        proof {
            assert(keys.take(n as int) =~= keys);
            assert forall|q: int, m: int|
                #![trigger old_procs[q], self.procs()[m]]
                0 <= q < old_procs.len() && 0 <= m < self.procs().len()
                && old_procs[q].name_view() == self.procs()[m].name_view()
                && is_active(old_procs[q].status_view())
                && !launch_alike(old_procs[q].config_view(), self.procs()[m].config_view())
                implies exists|a: int| 0 <= a < actions@.len() && (#[trigger] actions@[a] matches ReloadAction::Restart(n) && n@ == old_procs[q].name_view()) by {
                let nm = old_procs[q].name_view();
                assert(old_names[q] == nm);
                assert(self.names()[m] == nm);
                if m >= kept_len {
                    let tf = keys.filter(fresh);
                    assert(self.names()[m] == tf[m - kept_len]);
                    let r = crate::text::lemma_filter_member(keys, fresh, m - kept_len);
                }
                let kn = kept_names(old_names, keys);
                assert(self.names()[m] == kn[m]);
                let r = crate::text::lemma_filter_member(old_names, |x: Seq<char>| keys.contains(x), m);
                assert(keys.contains(nm));
                assert(keys.take(n as int).contains(self.procs()[m].name_view()));
                assert(old_names[orig[m]] == nm);
                assert(orig[m] == q);
            }
            assert forall|m: int|
                0 <= m < self.procs().len() && new_config.processes.keys().contains(#[trigger] self.procs()[m].name_view())
                && config_problem(new_config.processes.to_map()[self.procs()[m].name_view()]) is None
                implies resolved_from(self.procs()[m].config_view()@, new_config.processes.to_map()[self.procs()[m].name_view()]@) by {
                if m < kept_len {
                    assert(keys.take(n as int).contains(self.procs()[m].name_view()));
                }
            }
            assert forall|q: int| 0 <= q < old_procs.len() && is_active(#[trigger] old_procs[q].status_view())
                && !new_config.processes.keys().contains(old_procs[q].name_view())
                implies exists|a: int| 0 <= a < actions@.len() && (#[trigger] actions@[a] matches ReloadAction::Stop(n) && n@ == old_procs[q].name_view()) by {
                old_procs.filter_lemma(stop);
                let f = old_procs.filter(stop);
                assert(f.contains(old_procs[q]));
                let w = choose|w: int| 0 <= w < f.len() && f[w] == old_procs[q];
                assert(views(stops@)[w] == f[w].name_view());
                assert(actions@[w] matches ReloadAction::Stop(n) && n@ == stops@[w]@);
            }
        }
        actions
    }
}

/// The names of the processes a filter keeps by name are the filtered names.
proof fn lemma_filter_names(ps: Seq<ManagedProcess>, keys: Seq<Seq<char>>)
    ensures
        ps.filter(|p: ManagedProcess| keys.contains(p.name_view())).map_values(|p: ManagedProcess| p.name_view())
            == kept_names(ps.map_values(|p: ManagedProcess| p.name_view()), keys),
    decreases ps.len(),
{
    reveal(Seq::filter);
    let names = ps.map_values(|p: ManagedProcess| p.name_view());
    if ps.len() > 0 {
        lemma_filter_names(ps.drop_last(), keys);
        assert(names.drop_last() =~= ps.drop_last().map_values(|p: ManagedProcess| p.name_view()));
    } else {
        assert(names =~= Seq::<Seq<char>>::empty());
    }
    assert(ps.filter(|p: ManagedProcess| keys.contains(p.name_view())).map_values(|p: ManagedProcess| p.name_view())
        =~= kept_names(names, keys));
}

/// During a reload, the names registered so far are the kept ones and the
/// new ones from earlier entries; the name of entry `k` is among them exactly
/// when the reload kept it.
proof fn lemma_kept_or_fresh(old_names: Seq<Seq<char>>, keys: Seq<Seq<char>>, k: int)
    requires
        keys.no_duplicates(),
        0 <= k < keys.len(),
    ensures
        forall|pred: spec_fn(Seq<char>) -> bool|
            (kept_names(old_names, keys) + #[trigger] keys.take(k).filter(pred)).contains(keys[k])
                <==> old_names.contains(keys[k]),
{
    assert forall|pred: spec_fn(Seq<char>) -> bool|
        (kept_names(old_names, keys) + #[trigger] keys.take(k).filter(pred)).contains(keys[k])
            <==> old_names.contains(keys[k]) by {
        let kn = kept_names(old_names, keys);
        let tf = keys.take(k).filter(pred);
        let all = kn + tf;
        if all.contains(keys[k]) {
            let q = choose|q: int| 0 <= q < all.len() && all[q] == keys[k];
            if q < kn.len() {
                let r = crate::text::lemma_filter_member(old_names, |n: Seq<char>| keys.contains(n), q);
            } else {
                let r = crate::text::lemma_filter_member(keys.take(k), pred, q - kn.len());
                assert(keys[r] == keys[k]);
            }
        }
        if old_names.contains(keys[k]) {
            let q = choose|q: int| 0 <= q < old_names.len() && old_names[q] == keys[k];
            old_names.filter_lemma(|n: Seq<char>| keys.contains(n));
            assert(keys.contains(keys[k]));
            assert(kn.contains(old_names[q]));
            let w = choose|w: int| 0 <= w < kn.len() && kn[w] == keys[k];
            assert(all[w] == keys[k]);
        }
    }
}

/// `dep` is a configured process that the process `name` lists as a dependency.
pub open spec fn state_depends_on(s: ManagerState, name: Seq<char>, dep: Seq<char>) -> bool {
    &&& s.names().contains(name)
    &&& s.names().contains(dep)
    &&& s.procs()[s.names().index_of(name)].config_view()@.depends_on.contains(dep)
}

/// `o` names every registered process once, each after its dependencies.
pub open spec fn is_launch_order(s: ManagerState, o: Seq<Seq<char>>) -> bool {
    &&& o.no_duplicates()
    &&& o.to_set() == s.names().to_set()
    &&& forall|a: int, b: int|
        0 <= a < o.len() && 0 <= b < o.len() && #[trigger] state_depends_on(s, o[a], o[b]) ==> b < a
}

impl ManagerState {
    fn registered_names(&self) -> (r: Vec<String>)
        ensures
            views(r@) == self.names(),
    {
        let mut r: Vec<String> = Vec::new();
        let n = self.processes.len();
        for i in 0..n
            invariant
                n == self.procs().len(),
                views(r@) == self.names().take(i as int),
        {
            let ghost before = r@;
            r.push(String::from_str(self.processes[i].name()));
            assert(views(r@) =~= views(before).push(self.names()[i as int]));
            assert(self.names().take(i + 1) =~= self.names().take(i as int).push(self.names()[i as int]));
        }
        assert(self.names().take(n as int) =~= self.names());
        r
    }

    /// The start order, and whether it respects the dependencies (it does
    /// exactly when some order does).
    fn ordered(&self) -> (r: (Vec<String>, bool))
        ensures
            r.1 == exists|o: Seq<Seq<char>>| is_launch_order(*self, o),
            r.1 ==> is_launch_order(*self, views(r.0@)),
            !r.1 ==> views(r.0@) == self.names(),
    {
        let cfg = self.to_app_config();
        proof {
            use_type_invariant(&cfg.processes);
            let m = cfg.processes;
            assert forall|n: Seq<char>, d: Seq<char>| depends_on(m, n, d) == state_depends_on(*self, n, d) by {
                if m.keys().contains(n) {
                    let i = m.keys().index_of(n);
                    assert(m.to_map()[n] == m.values()[i]);
                    assert(views(m.values()[i].depends_on@) == m.values()[i]@.depends_on);
                }
            }
            assert forall|o: Seq<Seq<char>>| is_start_order(m, o) == is_launch_order(*self, o) by {
                if is_start_order(m, o) {
                    assert forall|a: int, b: int| 0 <= a < o.len() && 0 <= b < o.len()
                        && #[trigger] state_depends_on(*self, o[a], o[b]) implies b < a by {
                        assert(depends_on(m, o[a], o[b]));
                    }
                }
                if is_launch_order(*self, o) {
                    assert forall|a: int, b: int| 0 <= a < o.len() && 0 <= b < o.len()
                        && #[trigger] depends_on(m, o[a], o[b]) implies b < a by {
                        assert(state_depends_on(*self, o[a], o[b]));
                    }
                }
            }
        }
        match topological_sort(&cfg.processes) {
            Ok(order) => (order, true),
            Err(_) => (self.registered_names(), false),
        }
    }

    /// The order to start processes in: every process after the processes it
    /// depends on, when that is possible; registration order when the
    /// dependencies form a cycle.
    pub fn startup_order(&self) -> (r: Vec<String>)
        ensures
            (exists|o: Seq<Seq<char>>| is_launch_order(*self, o)) ==> is_launch_order(*self, views(r@)),
            !(exists|o: Seq<Seq<char>>| is_launch_order(*self, o)) ==> views(r@) == self.names(),
    {
        self.ordered().0
    }

    /// The order to stop processes in: the start order reversed, so that a
    /// process stops before the processes it depends on; registration order
    /// when the dependencies form a cycle.
    pub fn shutdown_order(&self) -> (r: Vec<String>)
        ensures
            (exists|o: Seq<Seq<char>>| is_launch_order(*self, o)) ==> is_launch_order(*self, views(r@).reverse()),
            !(exists|o: Seq<Seq<char>>| is_launch_order(*self, o)) ==> views(r@) == self.names(),
    {
        let (up, ok) = self.ordered();
        if !ok {
            return up;
        }
        let mut r: Vec<String> = Vec::new();
        let n = up.len();
        for k in 0..n
            invariant
                n == up@.len(),
                views(r@) == views(up@).reverse().take(k as int),
        {
            let ghost before = r@;
            let item = up[n - 1 - k].clone();
            r.push(item);
            assert(views(r@) =~= views(before).push(item@));
            assert(views(up@).reverse().take(k + 1) =~= views(up@).reverse().take(k as int).push(views(up@)[n - 1 - k]));
            assert(views(r@) =~= views(up@).reverse().take(k + 1));
        }
        assert(views(up@).reverse().take(n as int) =~= views(up@).reverse());
        assert(views(r@).reverse() =~= views(up@));
        r
    }
}


/// The address a TCP health check connects to: the loopback address and
/// the configured port (the configured host is not used).
pub fn health_probe_address(port: u16) -> (r: String)
    ensures
        r@ == "127.0.0.1:"@ + crate::text::decimal(port as nat),
{
    let mut r = String::from_str("127.0.0.1:");
    crate::text::push_decimal(&mut r, port as u64);
    r
}


/// Every process placed by one stuck prefix is placed by any other.
proof fn lemma_stuck_prefix_covers(m: StrMap<ProcessConfig>, d1: Seq<Seq<char>>, d2: Seq<Seq<char>>, a: int)
    requires
        is_start_prefix(m, d1),
        is_stuck(m, d2),
        0 <= a <= d1.len(),
    ensures
        forall|b: int| 0 <= b < a ==> d2.contains(#[trigger] d1[b]),
    decreases a,
{
    if a > 0 {
        lemma_stuck_prefix_covers(m, d1, d2, a - 1);
        let x = d1[a - 1];
        if !d2.contains(x) {
            assert(m.keys().contains(x));
            let d = choose|d: Seq<char>| depends_on(m, x, d) && !d2.contains(d);
            assert(depends_on(m, d1[a - 1], d));
            let b = choose|b: int| 0 <= b < a - 1 && d1[b] == d;
            assert(d2.contains(d1[b]));
        }
    }
}

/// The processes that cannot be placed do not depend on the order of
/// placement: any two stuck prefixes place the same processes, so a
/// dependency cycle is always reported with the same names.
pub proof fn lemma_cycle_report_unique(m: StrMap<ProcessConfig>, d1: Seq<Seq<char>>, d2: Seq<Seq<char>>)
    requires
        is_start_prefix(m, d1),
        is_stuck(m, d1),
        is_start_prefix(m, d2),
        is_stuck(m, d2),
    ensures
        d1.to_set() == d2.to_set(),
        left_out(m, d1) == left_out(m, d2),
        cycle_report(m, d1) == cycle_report(m, d2),
{
    lemma_stuck_prefix_covers(m, d1, d2, d1.len() as int);
    lemma_stuck_prefix_covers(m, d2, d1, d2.len() as int);
    assert forall|x: Seq<char>| d1.contains(x) <==> d2.contains(x) by {
        if d1.contains(x) {
            let b = choose|b: int| 0 <= b < d1.len() && d1[b] == x;
            assert(d2.contains(d1[b]));
        }
        if d2.contains(x) {
            let b = choose|b: int| 0 <= b < d2.len() && d2[b] == x;
            assert(d1.contains(d2[b]));
        }
    }
    assert(d1.to_set() =~= d2.to_set());
    let p1 = |k: Seq<char>| !d1.contains(k);
    let p2 = |k: Seq<char>| !d2.contains(k);
    assert(p1 =~= p2);
    assert(left_out(m, d1) == left_out(m, d2));
}

} // verus!
