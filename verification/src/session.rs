//! Sessions: an automation driver or Playwright runner with its process tree, or a group of
//! browser processes that share a marked profile directory.
use vstd::prelude::*;
use std::collections::HashSet;
use crate::command::{AGENT_PROFILE, profile, profile_of_command};
use crate::number::{decimal, lemma_decimal_injective, push_decimal};
use crate::process::{ProcessInfo, ProcessTable, agent, is_agent, is_playwright, keys_are_pids, playwright};
use crate::text::{contains, str_contains};
use crate::tree::{climb_ends, climb_stops, descendants, subtree, top, top_of};

verus! {

broadcast use vstd::std_specs::hash::group_hash_axioms;

/// One automation session. Its CPU and memory totals are measured outside the library.
#[derive(Debug)]
pub struct Session {
    pub id: String,
    pub kind: String,
    pub profile: Option<String>,
    pub root_pid: i32,
    pub agent_pid: Option<i32>,
    /// The processes of the session, in increasing pid order.
    pub processes: Vec<ProcessInfo>,
    pub active_seconds: u64,
}

/// The view of an optional string.
pub open spec fn opt_view(o: Option<String>) -> Option<Seq<char>> {
    match o {
        Some(s) => Some(s@),
        None => None,
    }
}

/// The pids of `ps` increase strictly.
pub open spec fn sorted_by_pid(ps: Seq<ProcessInfo>) -> bool {
    forall|i: int, j: int| 0 <= i < j < ps.len() ==> ps[i].pid < ps[j].pid
}

/// `ps` lists, in increasing pid order, exactly the processes of `t` whose pid is in `ids`.
pub open spec fn members_in_order(t: Map<i32, ProcessInfo>, ids: Set<i32>, ps: Seq<ProcessInfo>) -> bool {
    &&& sorted_by_pid(ps)
    &&& forall|i: int| #![trigger ps[i]]
        0 <= i < ps.len() ==> ids.contains(ps[i].pid) && t.contains_key(ps[i].pid) && t[ps[i].pid]
            == ps[i]
    &&& forall|k: i32| #[trigger] t.contains_key(k) && ids.contains(k) ==> exists|i: int|
        0 <= i < ps.len() && #[trigger] ps[i].pid == k
}

/// The kind of a session: an `agent-browser` session when its profile is an `agent-browser`
/// profile or one of its processes is the driver, a Playwright session otherwise.
pub open spec fn session_kind(prof: Option<Seq<char>>, ps: Seq<ProcessInfo>) -> Seq<char> {
    if (prof matches Some(p) && contains(p, AGENT_PROFILE@)) || exists|i: int|
        0 <= i < ps.len() && is_agent(#[trigger] ps[i]) {
        "Agent browser"@
    } else {
        "Playwright"@
    }
}

/// The least elapsed time among `ps`, or 0 when there is none.
pub open spec fn min_elapsed(ps: Seq<ProcessInfo>) -> u64
    decreases ps.len(),
{
    if ps.len() == 0 {
        0
    } else if ps.len() == 1 {
        ps[0].elapsed_seconds
    } else {
        let m = min_elapsed(ps.drop_last());
        if ps.last().elapsed_seconds < m {
            ps.last().elapsed_seconds
        } else {
            m
        }
    }
}

/// How long a session has been active: the age of its root process when the root is running,
/// else the age of its youngest process.
pub open spec fn active_seconds_of(t: Map<i32, ProcessInfo>, root: i32, ps: Seq<ProcessInfo>) -> u64 {
    if t.contains_key(root) {
        t[root].elapsed_seconds
    } else {
        min_elapsed(ps)
    }
}

/// What a session built from `ids` holds besides its names: its processes, its kind and its age.
pub open spec fn session_body(t: Map<i32, ProcessInfo>, ids: Set<i32>, s: Session) -> bool {
    &&& members_in_order(t, ids, s.processes@)
    &&& s.kind@ == session_kind(opt_view(s.profile), s.processes@)
    &&& s.active_seconds == active_seconds_of(t, s.root_pid, s.processes@)
}

/// `r` holds the elements of `v`, in strictly increasing order.
fn sort_pids(v: &Vec<i32>) -> (r: Vec<i32>)
    requires
        v@.no_duplicates(),
    ensures
        forall|i: int, j: int| 0 <= i < j < r@.len() ==> r@[i] < r@[j],
        forall|x: i32| r@.contains(x) <==> v@.contains(x),
{
    let mut r: Vec<i32> = Vec::new();
    let mut n: usize = 0;
    while n < v.len()
        invariant
            n <= v.len(),
            v@.no_duplicates(),
            forall|i: int, j: int| 0 <= i < j < r@.len() ==> r@[i] < r@[j],
            forall|x: i32| r@.contains(x) <==> v@.take(n as int).contains(x),
        decreases v.len() - n,
    {
        let x = v[n];
        proof {
            assert(!v@.take(n as int).contains(x)) by {
                if v@.take(n as int).contains(x) {
                    let i = choose|i: int| 0 <= i < n && v@.take(n as int)[i] == x;
                    assert(v@[i] == v@[n as int]);
                }
            }
        }
        let mut p: usize = 0;
        while p < r.len() && r[p] < x
            invariant
                p <= r@.len(),
                forall|i: int| 0 <= i < p ==> r@[i] < x,
            decreases r.len() - p,
        {
            p = p + 1;
        }
        let ghost before = r@;
        r.insert(p, x);
        proof {
            assert(r@ =~= before.insert(p as int, x));
            assert forall|i: int, j: int| 0 <= i < j < r@.len() implies r@[i] < r@[j] by {
                if p < before.len() {
                    assert(before[p as int] >= x);
                    assert(before[p as int] != x) by {
                        assert(before.contains(before[p as int]));
                    }
                }
                if j < p {
                } else if j == p {
                } else if i < p {
                    assert(before[j - 1] >= before[p as int]) by {
                        if j - 1 > p {
                        }
                    }
                } else if i == p {
                    if j - 1 > p {
                        assert(before[p as int] < before[j - 1]);
                    }
                } else {
                }
            }
            assert forall|y: i32| r@.contains(y) <==> (before.contains(y) || y == x) by {
                if r@.contains(y) {
                    let i = choose|i: int| 0 <= i < r@.len() && r@[i] == y;
                    if i < p {
                        assert(before[i] == y);
                    } else if i > p {
                        assert(before[i - 1] == y);
                    }
                }
                if before.contains(y) {
                    let i = choose|i: int| 0 <= i < before.len() && before[i] == y;
                    if i < p {
                        assert(r@[i] == y);
                    } else {
                        assert(r@[i + 1] == y);
                    }
                }
                if y == x {
                    assert(r@[p as int] == y);
                }
            }
            let s0 = v@.take(n as int);
            let s1 = v@.take(n + 1);
            assert(s1 =~= s0.push(x));
            assert forall|y: i32| s1.contains(y) <==> (s0.contains(y) || y == x) by {
                if s1.contains(y) {
                    let i = choose|i: int| 0 <= i < s1.len() && s1[i] == y;
                    if i < s0.len() {
                        assert(s0[i] == y);
                    }
                }
                if s0.contains(y) {
                    let i = choose|i: int| 0 <= i < s0.len() && s0[i] == y;
                    assert(s1[i] == y);
                }
                if y == x {
                    assert(s1[s0.len() as int] == y);
                }
            }
            assert forall|y: i32| r@.contains(y) <==> s1.contains(y) by {
                assert(before.contains(y) <==> s0.contains(y));
            }
        }
        n = n + 1;
    }
    assert(v@.take(v.len() as int) =~= v@);
    r
}

/// Builds a session from the pids in `ids`: the processes of the table among them, in
/// increasing pid order, the session's kind and how long it has been active.
pub fn make_session(
    id: String,
    profile: Option<String>,
    root: i32,
    agent_pid: Option<i32>,
    ids: HashSet<i32>,
    all: &ProcessTable,
) -> (s: Session)
    ensures
        s.id == id,
        s.profile == profile,
        s.root_pid == root,
        s.agent_pid == agent_pid,
        session_body(all@, ids@, s),
{
    let entries = all.entries();
    let ghost t = all@;
    let mut pids: Vec<i32> = Vec::new();
    let mut n: usize = 0;
    while n < entries.len()
        invariant
            n <= entries.len(),
            t == all@,
            keys_are_pids(t),
            forall|i: int| #![trigger entries@[i]]
                0 <= i < entries@.len() ==> t.contains_key(entries@[i].pid) && t[entries@[i].pid]
                    == entries@[i],
            forall|i: int, j: int|
                0 <= i < entries@.len() && 0 <= j < entries@.len() && i != j ==> entries@[i].pid
                    != entries@[j].pid,
            pids@.no_duplicates(),
            forall|x: i32|
                pids@.contains(x) <==> exists|i: int|
                    0 <= i < n && #[trigger] entries@[i].pid == x && ids@.contains(x),
        decreases entries.len() - n,
    {
        let pid = entries[n].pid;
        if ids.contains(&pid) {
            let ghost before = pids@;
            proof {
                assert(!before.contains(pid)) by {
                    if before.contains(pid) {
                        let i = choose|i: int|
                            0 <= i < n && #[trigger] entries@[i].pid == pid && ids@.contains(pid);
                        assert(entries@[i].pid != entries@[n as int].pid);
                    }
                }
            }
            pids.push(pid);
            proof {
                assert forall|a: int, b: int|
                    0 <= a < pids@.len() && 0 <= b < pids@.len() && a != b implies pids@[a]
                    != pids@[b] by {
                    if a < before.len() && b < before.len() {
                    } else if a < before.len() {
                        assert(before.contains(pids@[a]));
                    } else if b < before.len() {
                        assert(before.contains(pids@[b]));
                    }
                }
                assert forall|x: i32|
                    pids@.contains(x) <==> exists|i: int|
                        0 <= i < n + 1 && #[trigger] entries@[i].pid == x && ids@.contains(x) by {
                    if pids@.contains(x) && x != pid {
                        let i = choose|i: int| 0 <= i < pids@.len() && pids@[i] == x;
                        assert(before[i] == x);
                        assert(before.contains(x));
                    }
                    if x == pid {
                        assert(pids@[before.len() as int] == x);
                    }
                    if exists|i: int| 0 <= i < n && #[trigger] entries@[i].pid == x && ids@.contains(x) {
                        assert(before.contains(x));
                        let i = choose|i: int| 0 <= i < before.len() && before[i] == x;
                        assert(pids@[i] == x);
                    }
                }
            }
        } else {
            proof {
                assert forall|x: i32|
                    pids@.contains(x) <==> exists|i: int|
                        0 <= i < n + 1 && #[trigger] entries@[i].pid == x && ids@.contains(x) by {
                    if exists|i: int| 0 <= i < n + 1 && #[trigger] entries@[i].pid == x && ids@.contains(x) {
                        let i = choose|i: int| 0 <= i < n + 1 && #[trigger] entries@[i].pid == x && ids@.contains(x);
                        assert(i != n);
                    }
                }
            }
        }
        n = n + 1;
    }
    let sorted = sort_pids(&pids);
    let mut processes: Vec<ProcessInfo> = Vec::new();
    let mut j: usize = 0;
    while j < sorted.len()
        invariant
            j <= sorted.len(),
            t == all@,
            processes@.len() == j,
            keys_are_pids(t),
            forall|i: int|
                0 <= i < j ==> t.contains_key(#[trigger] sorted@[i]) && ids@.contains(sorted@[i]),
            forall|i: int| 0 <= i < j ==> #[trigger] processes@[i] == t[sorted@[i]],
            forall|x: i32| sorted@.contains(x) <==> pids@.contains(x),
            forall|x: i32|
                pids@.contains(x) <==> exists|i: int|
                    0 <= i < entries@.len() && #[trigger] entries@[i].pid == x && ids@.contains(x),
            forall|i: int| #![trigger entries@[i]]
                0 <= i < entries@.len() ==> t.contains_key(entries@[i].pid) && t[entries@[i].pid]
                    == entries@[i],
        decreases sorted.len() - j,
    {
        let pid = sorted[j];
        proof {
            assert(sorted@.contains(pid));
            assert(pids@.contains(pid));
            let i = choose|i: int|
                0 <= i < entries@.len() && #[trigger] entries@[i].pid == pid && ids@.contains(pid);
            assert(entries@[i].pid == pid);
            assert(ids@.contains(pid));
            assert(t.contains_key(pid));
        }
        let p = all.get(pid).unwrap();
        let copy = p.clone();
        assert(copy == t[pid]);
        let ghost before = processes@;
        processes.push(copy);
        assert(processes@ == before.push(copy));
        assert(processes@[j as int] == t[sorted@[j as int]]);
        assert(t.contains_key(sorted@[j as int]));
        assert(ids@.contains(sorted@[j as int]));
        j = j + 1;
    }
    proof {
        assert forall|k: i32| #[trigger] t.contains_key(k) && ids@.contains(k) implies exists|i: int|
            0 <= i < processes@.len() && #[trigger] processes@[i].pid == k by {
            let e = choose|i: int| 0 <= i < entries@.len() && #[trigger] entries@[i].pid == k;
            assert(pids@.contains(k));
            assert(sorted@.contains(k));
            let i = choose|i: int| 0 <= i < sorted@.len() && sorted@[i] == k;
            assert(processes@[i].pid == k);
        }
    }
    let mut any_agent = false;
    let mut j: usize = 0;
    while j < processes.len()
        invariant
            j <= processes.len(),
            any_agent == exists|i: int| 0 <= i < j && is_agent(#[trigger] processes@[i]),
        decreases processes.len() - j,
    {
        if agent(&processes[j]) {
            any_agent = true;
        }
        j = j + 1;
    }
    let agent_profile = match &profile {
        Some(p) => str_contains(p.as_str(), AGENT_PROFILE),
        None => false,
    };
    let kind = if agent_profile || any_agent {
        String::from_str("Agent browser")
    } else {
        String::from_str("Playwright")
    };
    let active_seconds = match all.get(root) {
        Some(p) => p.elapsed_seconds,
        None => youngest_age(&processes),
    };
    Session { id, kind, profile, root_pid: root, agent_pid, processes, active_seconds }
}

/// The least elapsed time among `ps`, or 0 when there is none.
fn youngest_age(ps: &Vec<ProcessInfo>) -> (m: u64)
    ensures
        m == min_elapsed(ps@),
{
    let mut m: u64 = 0;
    let mut j: usize = 0;
    while j < ps.len()
        invariant
            j <= ps.len(),
            m == min_elapsed(ps@.take(j as int)),
        decreases ps.len() - j,
    {
        let e = ps[j].elapsed_seconds;
        proof {
            assert(ps@.take(j + 1).drop_last() =~= ps@.take(j as int));
        }
        if j == 0 || e < m {
            m = e;
        }
        j = j + 1;
    }
    assert(ps@.take(ps.len() as int) =~= ps@);
    m
}

/// The process starts a session of its own: it is an `agent-browser` driver or a Playwright
/// runner.
pub open spec fn is_session_root(p: ProcessInfo) -> bool {
    is_agent(p) || is_playwright(p)
}

/// The automation profile named on the process's command line.
pub open spec fn profile_of(p: ProcessInfo) -> Option<Seq<char>> {
    profile_of_command(p.command@)
}

/// `x` belongs to the tree of some process that starts a session of its own.
pub open spec fn claimed(t: Map<i32, ProcessInfo>, x: i32) -> bool {
    exists|k: i32| t.contains_key(k) && is_session_root(t[k]) && #[trigger] subtree(t, k).contains(x)
}

/// `k` is a process outside every driver's or runner's tree whose command line names the
/// automation profile `v`.
pub open spec fn in_group(t: Map<i32, ProcessInfo>, v: Seq<char>, k: i32) -> bool {
    t.contains_key(k) && !claimed(t, k) && profile_of(t[k]) == Some(v)
}

/// Some process is in the profile group of `v`.
pub open spec fn has_group(t: Map<i32, ProcessInfo>, v: Seq<char>) -> bool {
    exists|k: i32| in_group(t, v, k)
}

/// The pids of the session of profile `v`: the members of the group, and the tree of the
/// highest browser above each member.
pub open spec fn group_ids(t: Map<i32, ProcessInfo>, v: Seq<char>) -> Set<i32> {
    Set::new(
        |x: i32|
            in_group(t, v, x) || exists|k: i32|
                in_group(t, v, k) && #[trigger] subtree(t, top(t, k)).contains(x),
    )
}

/// The id of the session that process `k` starts.
pub open spec fn root_session_id(t: Map<i32, ProcessInfo>, k: i32) -> Seq<char> {
    (if is_agent(t[k]) {
        "agent:"@
    } else {
        "playwright:"@
    }) + decimal(k as int)
}

/// The id of the session of profile `v`.
pub open spec fn profile_session_id(v: Seq<char>) -> Seq<char> {
    "profile:"@ + v
}

/// The profile a session shows is one named by a process of its tree, and there is none only
/// when no process of the tree names one.
pub open spec fn profile_from(t: Map<i32, ProcessInfo>, ids: Set<i32>, prof: Option<Seq<char>>) -> bool {
    match prof {
        None => forall|x: i32|
            #[trigger] ids.contains(x) && t.contains_key(x) ==> profile_of(t[x]) is None,
        Some(v) => exists|x: i32|
            #[trigger] ids.contains(x) && t.contains_key(x) && profile_of(t[x]) == Some(v),
    }
}

/// `s` is the session that process `k` starts: `k`'s tree, named after `k`.
pub open spec fn is_root_session(t: Map<i32, ProcessInfo>, k: i32, s: Session) -> bool {
    &&& t.contains_key(k)
    &&& is_session_root(t[k])
    &&& s.id@ == root_session_id(t, k)
    &&& s.root_pid == k
    &&& s.agent_pid == (if is_agent(t[k]) {
        Some(k)
    } else {
        None
    })
    &&& profile_from(t, subtree(t, k), opt_view(s.profile))
    &&& session_body(t, subtree(t, k), s)
}

/// The root of the session of profile `v`: the smaller of one member and the least of the
/// highest browsers above the members.
pub open spec fn group_root(t: Map<i32, ProcessInfo>, v: Seq<char>, r: i32) -> bool {
    &&& exists|f: i32|
        #[trigger] in_group(t, v, f) && r <= f && (r == f || exists|k: i32|
            #[trigger] in_group(t, v, k) && r == top(t, k))
    &&& forall|k: i32| #[trigger] in_group(t, v, k) ==> r <= top(t, k)
}

/// `s` is the session of the processes that name profile `v` without belonging to a driver's
/// or runner's tree.
pub open spec fn is_profile_session(t: Map<i32, ProcessInfo>, v: Seq<char>, s: Session) -> bool {
    &&& has_group(t, v)
    &&& s.id@ == profile_session_id(v)
    &&& opt_view(s.profile) == Some(v)
    &&& s.agent_pid is None
    &&& group_root(t, v, s.root_pid)
    &&& session_body(t, group_ids(t, v), s)
}

/// `r` holds, once each, the session of every driver and runner and the session of every
/// profile group, and nothing else.
pub open spec fn sessions_of(t: Map<i32, ProcessInfo>, r: Seq<Session>) -> bool {
    &&& forall|i: int| #![trigger r[i]]
        0 <= i < r.len() ==> is_root_session(t, r[i].root_pid, r[i]) || exists|v: Seq<char>|
            is_profile_session(t, v, r[i])
    &&& forall|k: i32| #[trigger]
        t.contains_key(k) && is_session_root(t[k]) ==> exists|i: int|
            0 <= i < r.len() && is_root_session(t, k, #[trigger] r[i])
    &&& forall|v: Seq<char>| #[trigger]
        has_group(t, v) ==> exists|i: int| 0 <= i < r.len() && is_profile_session(t, v, #[trigger] r[i])
    &&& forall|i: int, j: int| 0 <= i < r.len() && 0 <= j < r.len() && i != j ==> r[i].id@ != r[j].id@
}

/// Every process whose climb through browser parents matters (a member of a profile group)
/// reaches a process without a browser parent.
pub open spec fn group_walks_end(t: Map<i32, ProcessInfo>) -> bool {
    forall|k: i32| #[trigger] t.contains_key(k) && !claimed(t, k) && profile_of(t[k]) is Some ==> climb_ends(t, k)
}

/// Session ids of different drivers and runners differ.
pub proof fn lemma_root_ids_differ(t: Map<i32, ProcessInfo>, a: i32, b: i32)
    requires
        a != b,
    ensures
        root_session_id(t, a) != root_session_id(t, b),
{
    reveal_strlit("agent:");
    reveal_strlit("playwright:");
    let pa = if is_agent(t[a]) { "agent:"@ } else { "playwright:"@ };
    let pb = if is_agent(t[b]) { "agent:"@ } else { "playwright:"@ };
    if root_session_id(t, a) == root_session_id(t, b) {
        if pa == pb {
            assert(root_session_id(t, a).skip(pa.len() as int) =~= decimal(a as int));
            assert(root_session_id(t, b).skip(pb.len() as int) =~= decimal(b as int));
            lemma_decimal_injective(a as int, b as int);
        } else {
            assert(root_session_id(t, a)[0] != root_session_id(t, b)[0]);
        }
    }
}

/// A driver's or runner's session id is never a profile session id.
pub proof fn lemma_root_and_profile_ids_differ(t: Map<i32, ProcessInfo>, a: i32, v: Seq<char>)
    ensures
        root_session_id(t, a) != profile_session_id(v),
{
    reveal_strlit("agent:");
    reveal_strlit("playwright:");
    reveal_strlit("profile:");
    if is_agent(t[a]) {
        assert(root_session_id(t, a)[0] != profile_session_id(v)[0]);
    } else {
        assert(root_session_id(t, a)[1] != profile_session_id(v)[1]);
    }
}

/// Profile session ids of different profiles differ.
pub proof fn lemma_profile_ids_differ(v: Seq<char>, w: Seq<char>)
    requires
        v != w,
    ensures
        profile_session_id(v) != profile_session_id(w),
{
    reveal_strlit("profile:");
    if profile_session_id(v) == profile_session_id(w) {
        assert(profile_session_id(v).skip(8) =~= v);
        assert(profile_session_id(w).skip(8) =~= w);
    }
}

/// Adds every pid of `more` to `ids`.
fn union_into(ids: &mut HashSet<i32>, more: &HashSet<i32>)
    ensures
        final(ids)@ == old(ids)@.union(more@),
{
    let ghost start = ids@;
    for x in it: more.iter()
        invariant
            it.seq().unref().to_set() == more@,
            start.subset_of(ids@),
            ids@.subset_of(start.union(more@)),
            forall|y: i32| #[trigger]
                more@.contains(y) ==> ids@.contains(y) || exists|i: int|
                    it.index() <= i < it.seq().len() && *it.seq()[i] == y,
    {
        proof {
            assert(it.seq().unref()[it.index() as int] == *x);
            assert(it.seq().unref().to_set().contains(*x));
        }
        ids.insert(*x);
        proof {
            assert forall|y: i32| #[trigger]
                more@.contains(y) implies ids@.contains(y) || exists|i: int|
                    it.index() + 1 <= i < it.seq().len() && *it.seq()[i] == y by {
                if !ids@.contains(y) {
                    let i = choose|i: int| it.index() <= i < it.seq().len() && *it.seq()[i] == y;
                    assert(i != it.index());
                }
            }
        }
    }
    assert(ids@ =~= start.union(more@));
}

/// `e` lists every process of `t` once.
pub open spec fn lists_table(t: Map<i32, ProcessInfo>, e: Seq<ProcessInfo>) -> bool {
    &&& keys_are_pids(t)
    &&& forall|i: int| #![trigger e[i]]
        0 <= i < e.len() ==> t.contains_key(e[i].pid) && t[e[i].pid] == e[i]
    &&& forall|k: i32| #[trigger] t.contains_key(k) ==> exists|i: int|
        0 <= i < e.len() && #[trigger] e[i].pid == k
    &&& forall|i: int, j: int| 0 <= i < e.len() && 0 <= j < e.len() && i != j ==> e[i].pid != e[j].pid
}

/// The profile named by the first process of `entries` whose pid is in `ids`, if one names one.
fn first_profile(ids: &HashSet<i32>, entries: &Vec<ProcessInfo>, all: &ProcessTable) -> (r: Option<String>)
    requires
        lists_table(all@, entries@),
    ensures
        profile_from(all@, ids@, opt_view(r)),
{
    let ghost t = all@;
    let mut n: usize = 0;
    while n < entries.len()
        invariant
            n <= entries.len(),
            lists_table(t, entries@),
            t == all@,
            forall|m: int| 0 <= m < n && ids@.contains(#[trigger] entries@[m].pid) ==> profile_of(entries@[m]) is None,
        decreases entries.len() - n,
    {
        if ids.contains(&entries[n].pid) {
            match profile(entries[n].command.as_str()) {
                Some(v) => {
                    proof {
                        let x = entries@[n as int].pid;
                        assert(ids@.contains(x) && t.contains_key(x) && profile_of(t[x]) == Some(v@));
                    }
                    return Some(v);
                },
                None => {},
            }
        }
        n = n + 1;
    }
    proof {
        assert forall|x: i32| #[trigger] ids@.contains(x) && t.contains_key(x) implies profile_of(t[x]) is None by {
            let m = choose|m: int| 0 <= m < entries@.len() && #[trigger] entries@[m].pid == x;
            assert(entries@[m] == t[x]);
        }
    }
    None
}

/// The id of the session that a driver (`is_agent`) or runner with pid `pid` starts.
fn root_id(is_agent: bool, pid: i32) -> (r: String)
    ensures
        r@ == (if is_agent {
            "agent:"@
        } else {
            "playwright:"@
        }) + decimal(pid as int),
{
    let mut id = if is_agent {
        String::from_str("agent:")
    } else {
        String::from_str("playwright:")
    };
    push_decimal(&mut id, pid);
    id
}

/// The id of the session of a profile.
fn profile_id(v: &String) -> (r: String)
    ensures
        r@ == profile_session_id(v@),
{
    let mut id = String::from_str("profile:");
    id.append(v.as_str());
    id
}

/// The sessions that drivers and runners start, in the order of `entries`, and the set of
/// pids that belong to their trees.
fn root_sessions(all: &ProcessTable, entries: &Vec<ProcessInfo>) -> (r: (Vec<Session>, HashSet<i32>))
    requires
        lists_table(all@, entries@),
    ensures
        forall|i: int| #![trigger r.0@[i]]
            0 <= i < r.0@.len() ==> is_root_session(all@, r.0@[i].root_pid, r.0@[i]),
        forall|k: i32| #[trigger]
            all@.contains_key(k) && is_session_root(all@[k]) ==> exists|i: int|
                0 <= i < r.0@.len() && is_root_session(all@, k, #[trigger] r.0@[i]),
        forall|i: int, j: int|
            0 <= i < r.0@.len() && 0 <= j < r.0@.len() && i != j ==> r.0@[i].root_pid != r.0@[j].root_pid,
        forall|x: i32| #[trigger] r.1@.contains(x) <==> claimed(all@, x),
{
    let ghost t = all@;
    let mut out: Vec<Session> = Vec::new();
    let mut taken: HashSet<i32> = HashSet::new();
    let mut n: usize = 0;
    while n < entries.len()
        invariant
            n <= entries.len(),
            t == all@,
            lists_table(t, entries@),
            forall|i: int| #![trigger out@[i]]
                0 <= i < out@.len() ==> is_root_session(t, out@[i].root_pid, out@[i]) && exists|m: int|
                    0 <= m < n && #[trigger] entries@[m].pid == out@[i].root_pid,
            forall|m: int| #![trigger entries@[m]]
                0 <= m < n && is_session_root(entries@[m]) ==> exists|i: int|
                    0 <= i < out@.len() && is_root_session(t, entries@[m].pid, #[trigger] out@[i]),
            forall|i: int, j: int|
                0 <= i < out@.len() && 0 <= j < out@.len() && i != j ==> out@[i].root_pid != out@[j].root_pid,
            forall|x: i32| #[trigger] taken@.contains(x) <==> exists|m: int|
                0 <= m < n && is_session_root(#[trigger] entries@[m]) && subtree(t, entries@[m].pid).contains(x),
        decreases entries.len() - n,
    {
        let ghost before = out@;
        let ghost taken0 = taken@;
        if agent(&entries[n]) || playwright(&entries[n]) {
            let pid = entries[n].pid;
            let ids = descendants(pid, all);
            let prof = first_profile(&ids, entries, all);
            union_into(&mut taken, &ids);
            let is_ag = agent(&entries[n]);
            let id = root_id(is_ag, pid);
            let agent_pid = if is_ag {
                Some(pid)
            } else {
                None
            };
            let session = make_session(id, prof, pid, agent_pid, ids, all);
            proof {
                assert(t[pid] == entries@[n as int]);
                assert(is_root_session(t, pid, session));
            }
            out.push(session);
            proof {
                assert forall|i: int| #![trigger out@[i]]
                    0 <= i < out@.len() implies (is_root_session(t, out@[i].root_pid, out@[i]) && exists|m: int|
                        0 <= m < n + 1 && #[trigger] entries@[m].pid == out@[i].root_pid) by {
                    if i < before.len() {
                        assert(out@[i] == before[i]);
                        let m = choose|m: int| 0 <= m < n && #[trigger] entries@[m].pid == before[i].root_pid;
                        assert(entries@[m].pid == out@[i].root_pid);
                    } else {
                        assert(entries@[n as int].pid == out@[i].root_pid);
                    }
                }
                assert forall|m: int| #![trigger entries@[m]]
                    0 <= m < n + 1 && is_session_root(entries@[m]) implies exists|i: int|
                        0 <= i < out@.len() && is_root_session(t, entries@[m].pid, #[trigger] out@[i]) by {
                    if m < n {
                        let i = choose|i: int|
                            0 <= i < before.len() && is_root_session(t, entries@[m].pid, #[trigger] before[i]);
                        assert(out@[i] == before[i]);
                    } else {
                        assert(out@[before.len() as int] == session);
                    }
                }
                assert forall|i: int, j: int|
                    0 <= i < out@.len() && 0 <= j < out@.len() && i != j implies out@[i].root_pid != out@[j].root_pid by {
                    if i < before.len() && j < before.len() {
                        assert(out@[i] == before[i] && out@[j] == before[j]);
                    } else if i < before.len() {
                        assert(out@[i] == before[i]);
                        let m = choose|m: int| 0 <= m < n && #[trigger] entries@[m].pid == before[i].root_pid;
                        assert(entries@[m].pid != entries@[n as int].pid);
                    } else if j < before.len() {
                        assert(out@[j] == before[j]);
                        let m = choose|m: int| 0 <= m < n && #[trigger] entries@[m].pid == before[j].root_pid;
                        assert(entries@[m].pid != entries@[n as int].pid);
                    }
                }
                assert forall|x: i32| #[trigger] taken@.contains(x) <==> exists|m: int|
                    0 <= m < n + 1 && is_session_root(#[trigger] entries@[m]) && subtree(t, entries@[m].pid).contains(x) by {
                    if taken0.contains(x) {
                        let m = choose|m: int|
                            0 <= m < n && is_session_root(#[trigger] entries@[m]) && subtree(t, entries@[m].pid).contains(x);
                    }
                    if exists|m: int|
                        0 <= m < n + 1 && is_session_root(#[trigger] entries@[m]) && subtree(t, entries@[m].pid).contains(x) {
                        let m = choose|m: int|
                            0 <= m < n + 1 && is_session_root(#[trigger] entries@[m]) && subtree(t, entries@[m].pid).contains(x);
                        if m < n {
                            assert(taken0.contains(x));
                        }
                    }
                }
            }
        } else {
            proof {
                assert forall|x: i32| #[trigger] taken@.contains(x) <==> exists|m: int|
                    0 <= m < n + 1 && is_session_root(#[trigger] entries@[m]) && subtree(t, entries@[m].pid).contains(x) by {
                    if exists|m: int|
                        0 <= m < n + 1 && is_session_root(#[trigger] entries@[m]) && subtree(t, entries@[m].pid).contains(x) {
                        let m = choose|m: int|
                            0 <= m < n + 1 && is_session_root(#[trigger] entries@[m]) && subtree(t, entries@[m].pid).contains(x);
                        assert(m != n);
                    }
                }
                assert forall|i: int| #![trigger out@[i]]
                    0 <= i < out@.len() implies (is_root_session(t, out@[i].root_pid, out@[i]) && exists|m: int|
                        0 <= m < n + 1 && #[trigger] entries@[m].pid == out@[i].root_pid) by {
                    let m = choose|m: int| 0 <= m < n && #[trigger] entries@[m].pid == out@[i].root_pid;
                }
            }
        }
        n = n + 1;
    }
    proof {
        assert forall|k: i32| #[trigger]
            t.contains_key(k) && is_session_root(t[k]) implies exists|i: int|
                0 <= i < out@.len() && is_root_session(t, k, #[trigger] out@[i]) by {
            let m = choose|m: int| 0 <= m < entries@.len() && #[trigger] entries@[m].pid == k;
            assert(entries@[m] == t[k]);
        }
        assert forall|x: i32| #[trigger] taken@.contains(x) <==> claimed(t, x) by {
            if claimed(t, x) {
                let k = choose|k: i32| t.contains_key(k) && is_session_root(t[k]) && #[trigger] subtree(t, k).contains(x);
                let m = choose|m: int| 0 <= m < entries@.len() && #[trigger] entries@[m].pid == k;
                assert(entries@[m] == t[k]);
            }
            if taken@.contains(x) {
                let m = choose|m: int|
                    0 <= m < entries@.len() && is_session_root(#[trigger] entries@[m]) && subtree(t, entries@[m].pid).contains(x);
                assert(t[entries@[m].pid] == entries@[m]);
            }
        }
    }
    (out, taken)
}

/// The position of `v` in `names`.
fn position_of(names: &Vec<String>, v: &String) -> (r: Option<usize>)
    ensures
        match r {
            Some(g) => g < names@.len() && names@[g as int]@ == v@,
            None => forall|h: int| 0 <= h < names@.len() ==> names@[h]@ != v@,
        },
{
    let mut g: usize = 0;
    while g < names.len()
        invariant
            g <= names@.len(),
            forall|h: int| 0 <= h < g ==> names@[h]@ != v@,
        decreases names.len() - g,
    {
        if names[g] == *v {
            return Some(g);
        }
        g = g + 1;
    }
    None
}

/// Groups the processes outside every driver's and runner's tree by the automation profile
/// their command line names: the distinct profiles, and for each the pids that name it.
fn profile_groups(all: &ProcessTable, entries: &Vec<ProcessInfo>, taken: &HashSet<i32>) -> (r: (
    Vec<String>,
    Vec<Vec<i32>>,
))
    requires
        lists_table(all@, entries@),
        forall|x: i32| #[trigger] taken@.contains(x) <==> claimed(all@, x),
    ensures
        r.0@.len() == r.1@.len(),
        forall|g: int| 0 <= g < r.1@.len() ==> #[trigger] r.1@[g]@.len() > 0,
        forall|g: int, x: i32|
            0 <= g < r.1@.len() ==> (#[trigger] r.1@[g]@.contains(x) <==> in_group(all@, r.0@[g]@, x)),
        forall|g: int, h: int|
            0 <= g < r.0@.len() && 0 <= h < r.0@.len() && g != h ==> r.0@[g]@ != r.0@[h]@,
        forall|v: Seq<char>| #[trigger]
            has_group(all@, v) ==> exists|g: int| 0 <= g < r.0@.len() && #[trigger] r.0@[g]@ == v,
{
    let ghost t = all@;
    let mut names: Vec<String> = Vec::new();
    let mut members: Vec<Vec<i32>> = Vec::new();
    let mut n: usize = 0;
    while n < entries.len()
        invariant
            n <= entries.len(),
            t == all@,
            lists_table(t, entries@),
            forall|x: i32| #[trigger] taken@.contains(x) <==> claimed(t, x),
            names@.len() == members@.len(),
            forall|g: int| 0 <= g < members@.len() ==> #[trigger] members@[g]@.len() > 0,
            forall|g: int, x: i32|
                0 <= g < members@.len() && #[trigger] members@[g]@.contains(x) ==> in_group(t, names@[g]@, x),
            forall|g: int, h: int|
                0 <= g < names@.len() && 0 <= h < names@.len() && g != h ==> names@[g]@ != names@[h]@,
            forall|m: int| #![trigger entries@[m]]
                0 <= m < n && !claimed(t, entries@[m].pid) && profile_of(entries@[m]) is Some ==> exists|g: int|
                    0 <= g < names@.len() && Some(names@[g]@) == profile_of(entries@[m])
                        && members@[g]@.contains(entries@[m].pid),
        decreases entries.len() - n,
    {
        let pid = entries[n].pid;
        let ghost names0 = names@;
        let ghost members0 = members@;
        if !taken.contains(&pid) {
            match profile(entries[n].command.as_str()) {
                None => {},
                Some(v) => {
                    proof {
                        assert(t[pid] == entries@[n as int]);
                        assert(in_group(t, v@, pid));
                    }
                    let found = position_of(&names, &v);
                    let g: usize = match found {
                        Some(g) => g,
                        None => names.len(),
                    };
                    if g < names.len() {
                        let mut list: Vec<i32> = Vec::new();
                        members.set_and_swap(g, &mut list);
                        list.push(pid);
                        members.set_and_swap(g, &mut list);
                        proof {
                            assert forall|h: int, x: i32|
                                0 <= h < members@.len() && #[trigger] members@[h]@.contains(x) implies in_group(t, names@[h]@, x) by {
                                if h == g {
                                    assert(members@[h]@ == members0[h]@.push(pid));
                                    if x != pid {
                                        let i = choose|i: int| 0 <= i < members@[h]@.len() && members@[h]@[i] == x;
                                        assert(i < members0[h]@.len());
                                        assert(members0[h]@[i] == x);
                                        assert(members0[h]@.contains(x));
                                    }
                                } else {
                                    assert(members@[h] == members0[h]);
                                }
                            }
                            assert forall|m: int| #![trigger entries@[m]]
                                0 <= m < n + 1 && !claimed(t, entries@[m].pid) && profile_of(entries@[m]) is Some implies exists|h: int|
                                    0 <= h < names@.len() && Some(names@[h]@) == profile_of(entries@[m])
                                        && members@[h]@.contains(entries@[m].pid) by {
                                if m < n {
                                    let h = choose|h: int|
                                        0 <= h < names0.len() && Some(names0[h]@) == profile_of(entries@[m])
                                            && members0[h]@.contains(entries@[m].pid);
                                    if h == g {
                                        let i = choose|i: int| 0 <= i < members0[h]@.len() && members0[h]@[i] == entries@[m].pid;
                                        assert(members@[h]@[i] == entries@[m].pid);
                                    } else {
                                        assert(members@[h] == members0[h]);
                                    }
                                } else {
                                    assert(members@[g as int]@[members0[g as int]@.len() as int] == pid);
                                }
                            }
                        }
                    } else {
                        let ghost vv = v@;
                        names.push(v);
                        let mut list: Vec<i32> = Vec::new();
                        list.push(pid);
                        members.push(list);
                        proof {
                            assert(names@[g as int]@ == vv);
                            assert forall|h: int, x: i32|
                                0 <= h < members@.len() && #[trigger] members@[h]@.contains(x) implies in_group(t, names@[h]@, x) by {
                                if h < g {
                                    assert(members@[h] == members0[h]);
                                    assert(names@[h] == names0[h]);
                                } else {
                                    assert(members@[h]@[0] == pid);
                                }
                            }
                            assert forall|a: int, c: int|
                                0 <= a < names@.len() && 0 <= c < names@.len() && a != c implies names@[a]@ != names@[c]@ by {
                                if a < g && c < g {
                                    assert(names@[a] == names0[a] && names@[c] == names0[c]);
                                } else if a < g {
                                    assert(names@[a] == names0[a]);
                                } else if c < g {
                                    assert(names@[c] == names0[c]);
                                }
                            }
                            assert forall|m: int| #![trigger entries@[m]]
                                0 <= m < n + 1 && !claimed(t, entries@[m].pid) && profile_of(entries@[m]) is Some implies exists|h: int|
                                    0 <= h < names@.len() && Some(names@[h]@) == profile_of(entries@[m])
                                        && members@[h]@.contains(entries@[m].pid) by {
                                if m < n {
                                    let h = choose|h: int|
                                        0 <= h < names0.len() && Some(names0[h]@) == profile_of(entries@[m])
                                            && members0[h]@.contains(entries@[m].pid);
                                    assert(members@[h] == members0[h]);
                                    assert(names@[h] == names0[h]);
                                } else {
                                    assert(members@[g as int]@[0] == pid);
                                }
                            }
                        }
                    }
                },
            }
        }
        proof {
            assert forall|m: int| #![trigger entries@[m]]
                0 <= m < n + 1 && !claimed(t, entries@[m].pid) && profile_of(entries@[m]) is Some implies exists|h: int|
                    0 <= h < names@.len() && Some(names@[h]@) == profile_of(entries@[m])
                        && members@[h]@.contains(entries@[m].pid) by {
                if m == n {
                    assert(!taken@.contains(pid));
                }
            }
        }
        n = n + 1;
    }
    proof {
        assert forall|g: int, x: i32|
            0 <= g < members@.len() implies (#[trigger] members@[g]@.contains(x) <==> in_group(t, names@[g]@, x)) by {
            if in_group(t, names@[g]@, x) {
                let m = choose|m: int| 0 <= m < entries@.len() && #[trigger] entries@[m].pid == x;
                assert(entries@[m] == t[x]);
                let h = choose|h: int|
                    0 <= h < names@.len() && Some(names@[h]@) == profile_of(entries@[m])
                        && members@[h]@.contains(entries@[m].pid);
                assert(h == g);
            }
        }
        assert forall|v: Seq<char>| #[trigger]
            has_group(t, v) implies exists|g: int| 0 <= g < names@.len() && #[trigger] names@[g]@ == v by {
            let k = choose|k: i32| in_group(t, v, k);
            let m = choose|m: int| 0 <= m < entries@.len() && #[trigger] entries@[m].pid == k;
            assert(entries@[m] == t[k]);
            let h = choose|h: int|
                0 <= h < names@.len() && Some(names@[h]@) == profile_of(entries@[m])
                    && members@[h]@.contains(entries@[m].pid);
            assert(names@[h]@ == v);
        }
    }
    (names, members)
}

/// The session of the processes in `list`, which are the members of the group of profile
/// `name`.
fn group_session(all: &ProcessTable, name: &String, list: &Vec<i32>) -> (s: Session)
    requires
        list@.len() > 0,
        forall|x: i32| #[trigger] list@.contains(x) <==> in_group(all@, name@, x),
        group_walks_end(all@),
    ensures
        is_profile_session(all@, name@, s),
{
    let ghost t = all@;
    let ghost v = name@;
    let mut ids: HashSet<i32> = HashSet::new();
    let mut i: usize = 0;
    while i < list.len()
        invariant
            i <= list@.len(),
            forall|x: i32| #[trigger] ids@.contains(x) <==> list@.take(i as int).contains(x),
        decreases list.len() - i,
    {
        let ghost ids0 = ids@;
        ids.insert(list[i]);
        proof {
            let p0 = list@.take(i as int);
            let p1 = list@.take(i + 1);
            assert(p1 =~= p0.push(list@[i as int]));
            assert forall|x: i32| #[trigger] ids@.contains(x) <==> p1.contains(x) by {
                if p0.contains(x) {
                    let j = choose|j: int| 0 <= j < p0.len() && p0[j] == x;
                    assert(p1[j] == x);
                }
                if p1.contains(x) {
                    let j = choose|j: int| 0 <= j < p1.len() && p1[j] == x;
                    if j < p0.len() {
                        assert(p0[j] == x);
                    }
                }
                if x == list@[i as int] {
                    assert(p1[i as int] == x);
                }
            }
        }
        i = i + 1;
    }
    assert(list@.take(list@.len() as int) =~= list@);
    assert(ids@ =~= Set::new(|x: i32| list@.contains(x) || exists|i: int|
                0 <= i < 0 && subtree(t, top(t, #[trigger] list@[i])).contains(x)));
    let mut root: i32 = list[0];
    proof {
        assert forall|i: int| 0 <= i < list@.len() implies climb_ends(t, #[trigger] list@[i]) by {
            assert(list@.contains(list@[i]));
            assert(in_group(t, v, list@[i]));
        }
    }
    let mut j: usize = 0;
    while j < list.len()
        invariant
            j <= list@.len(),
            list@.len() > 0,
            t == all@,
            forall|i: int| 0 <= i < list@.len() ==> climb_ends(t, #[trigger] list@[i]),
            root <= list@[0],
            root == list@[0] || exists|i: int| 0 <= i < j && root == top(t, #[trigger] list@[i]),
            forall|i: int| 0 <= i < j ==> root <= top(t, #[trigger] list@[i]),
            ids@ == Set::new(|x: i32| list@.contains(x) || exists|i: int|
                0 <= i < j && subtree(t, top(t, #[trigger] list@[i])).contains(x)),
        decreases list.len() - j,
    {
        let id = list[j];
        let a = top_of(all, id);
        if a < root {
            root = a;
        }
        let more = descendants(a, all);
        let ghost ids0 = ids@;
        union_into(&mut ids, &more);
        proof {
            if root != list@[0] && root != a {
                let i = choose|i: int| 0 <= i < j && root == top(t, #[trigger] list@[i]);
                assert(i < j + 1);
            }
            let next = Set::new(|x: i32| list@.contains(x) || exists|i: int|
                0 <= i < j + 1 && subtree(t, top(t, #[trigger] list@[i])).contains(x));
            assert forall|x: i32| #[trigger] ids@.contains(x) <==> next.contains(x) by {
                if exists|i: int| 0 <= i < j + 1 && subtree(t, top(t, #[trigger] list@[i])).contains(x) {
                    let i = choose|i: int| 0 <= i < j + 1 && subtree(t, top(t, #[trigger] list@[i])).contains(x);
                    if i < j {
                        assert(ids0.contains(x));
                    }
                }
                if ids0.contains(x) && !list@.contains(x) {
                    let i = choose|i: int| 0 <= i < j && subtree(t, top(t, #[trigger] list@[i])).contains(x);
                    assert(i < j + 1);
                }
            }
            assert(ids@ =~= next);
        }
        j = j + 1;
    }
    proof {
        assert(ids@ =~= group_ids(t, v)) by {
            assert forall|x: i32| ids@.contains(x) <==> group_ids(t, v).contains(x) by {
                if ids@.contains(x) && !list@.contains(x) {
                    let i = choose|i: int| 0 <= i < list@.len() && subtree(t, top(t, #[trigger] list@[i])).contains(x);
                    assert(list@.contains(list@[i]));
                }
                if group_ids(t, v).contains(x) && !in_group(t, v, x) {
                    let k = choose|k: i32| in_group(t, v, k) && #[trigger] subtree(t, top(t, k)).contains(x);
                    assert(list@.contains(k));
                    let i = choose|i: int| 0 <= i < list@.len() && list@[i] == k;
                    assert(subtree(t, top(t, list@[i])).contains(x));
                }
            }
        }
        assert(list@.contains(list@[0]));
        assert(in_group(t, v, list@[0]));
        assert forall|k: i32| #[trigger] in_group(t, v, k) implies root <= top(t, k) by {
            assert(list@.contains(k));
            let i = choose|i: int| 0 <= i < list@.len() && list@[i] == k;
            assert(root <= top(t, list@[i]));
        }
        if root != list@[0] {
            let i = choose|i: int| 0 <= i < list@.len() && root == top(t, #[trigger] list@[i]);
            assert(list@.contains(list@[i]));
            assert(in_group(t, v, list@[i]));
        }
    }
    let id = profile_id(name);
    make_session(id, Some(name.clone()), root, None, ids, all)
}

/// Appends to the driver and runner sessions `out` the session of every profile group.
fn add_group_sessions(all: &ProcessTable, out: Vec<Session>, names: &Vec<String>, members: &Vec<Vec<i32>>) -> (r: Vec<Session>)
    requires
        group_walks_end(all@),
        names@.len() == members@.len(),
        forall|h: int| 0 <= h < members@.len() ==> #[trigger] members@[h]@.len() > 0,
        forall|h: int, x: i32|
            0 <= h < members@.len() ==> (#[trigger] members@[h]@.contains(x) <==> in_group(all@, names@[h]@, x)),
        forall|h: int, h2: int|
            0 <= h < names@.len() && 0 <= h2 < names@.len() && h != h2 ==> names@[h]@ != names@[h2]@,
        forall|v: Seq<char>| #[trigger]
            has_group(all@, v) ==> exists|g: int| 0 <= g < names@.len() && #[trigger] names@[g]@ == v,
        forall|i: int| #![trigger out@[i]]
            0 <= i < out@.len() ==> is_root_session(all@, out@[i].root_pid, out@[i]),
        forall|k: i32| #[trigger]
            all@.contains_key(k) && is_session_root(all@[k]) ==> exists|i: int|
                0 <= i < out@.len() && is_root_session(all@, k, #[trigger] out@[i]),
        forall|i: int, j: int|
            0 <= i < out@.len() && 0 <= j < out@.len() && i != j ==> out@[i].root_pid != out@[j].root_pid,
    ensures
        sessions_of(all@, r@),
{
    let ghost t = all@;
    let mut out = out;
    proof {
        assert forall|i: int, j: int|
            0 <= i < out@.len() && 0 <= j < out@.len() && i != j implies out@[i].id@ != out@[j].id@ by {
            assert(is_root_session(t, out@[i].root_pid, out@[i]));
            assert(is_root_session(t, out@[j].root_pid, out@[j]));
            lemma_root_ids_differ(t, out@[i].root_pid, out@[j].root_pid);
        }
    }
    let mut g: usize = 0;
    while g < names.len()
        invariant
            g <= names@.len(),
            t == all@,
            group_walks_end(t),
            names@.len() == members@.len(),
            forall|h: int| 0 <= h < members@.len() ==> #[trigger] members@[h]@.len() > 0,
            forall|h: int, x: i32|
                0 <= h < members@.len() ==> (#[trigger] members@[h]@.contains(x) <==> in_group(t, names@[h]@, x)),
            forall|h: int, h2: int|
                0 <= h < names@.len() && 0 <= h2 < names@.len() && h != h2 ==> names@[h]@ != names@[h2]@,
            forall|i: int| #![trigger out@[i]]
                0 <= i < out@.len() ==> is_root_session(t, out@[i].root_pid, out@[i]) || exists|h: int|
                    0 <= h < g && is_profile_session(t, names@[h]@, out@[i]),
            forall|k: i32| #[trigger]
                t.contains_key(k) && is_session_root(t[k]) ==> exists|i: int|
                    0 <= i < out@.len() && is_root_session(t, k, #[trigger] out@[i]),
            forall|h: int| 0 <= h < g ==> exists|i: int|
                0 <= i < out@.len() && is_profile_session(t, #[trigger] names@[h]@, out@[i]),
            forall|i: int, j: int|
                0 <= i < out@.len() && 0 <= j < out@.len() && i != j ==> out@[i].id@ != out@[j].id@,
        decreases names.len() - g,
    {
        let session = group_session(all, &names[g], &members[g]);
        let ghost before = out@;
        out.push(session);
        proof {
            let v = names@[g as int]@;
            assert(out@[before.len() as int] == session);
            assert forall|i: int| #![trigger out@[i]]
                0 <= i < out@.len() implies (is_root_session(t, out@[i].root_pid, out@[i]) || exists|h: int|
                    0 <= h < g + 1 && is_profile_session(t, names@[h]@, out@[i])) by {
                if i < before.len() {
                    assert(out@[i] == before[i]);
                    if !is_root_session(t, out@[i].root_pid, out@[i]) {
                        let h = choose|h: int| 0 <= h < g && is_profile_session(t, names@[h]@, before[i]);
                        assert(h < g + 1);
                    }
                } else {
                    assert(is_profile_session(t, names@[g as int]@, out@[i]));
                }
            }
            assert forall|k: i32| #[trigger]
                t.contains_key(k) && is_session_root(t[k]) implies exists|i: int|
                    0 <= i < out@.len() && is_root_session(t, k, #[trigger] out@[i]) by {
                let i = choose|i: int| 0 <= i < before.len() && is_root_session(t, k, #[trigger] before[i]);
                assert(out@[i] == before[i]);
            }
            assert forall|h: int| 0 <= h < g + 1 implies exists|i: int|
                0 <= i < out@.len() && is_profile_session(t, #[trigger] names@[h]@, out@[i]) by {
                if h < g {
                    let i = choose|i: int| 0 <= i < before.len() && is_profile_session(t, #[trigger] names@[h]@, before[i]);
                    assert(out@[i] == before[i]);
                } else {
                    assert(out@[before.len() as int] == session);
                }
            }
            assert forall|i: int, j: int|
                0 <= i < out@.len() && 0 <= j < out@.len() && i != j implies out@[i].id@ != out@[j].id@ by {
                if i < before.len() && j < before.len() {
                    assert(out@[i] == before[i] && out@[j] == before[j]);
                } else if i < before.len() || j < before.len() {
                    let o = if i < before.len() { i } else { j };
                    assert(out@[o] == before[o]);
                    if is_root_session(t, before[o].root_pid, before[o]) {
                        lemma_root_and_profile_ids_differ(t, before[o].root_pid, v);
                    } else {
                        let h = choose|h: int| 0 <= h < g && is_profile_session(t, names@[h]@, before[o]);
                        lemma_profile_ids_differ(names@[h]@, v);
                    }
                }
            }
        }
        g = g + 1;
    }
    proof {
        assert forall|i: int| #![trigger out@[i]]
            0 <= i < out@.len() implies (is_root_session(t, out@[i].root_pid, out@[i]) || exists|v: Seq<char>|
                is_profile_session(t, v, out@[i])) by {
            if !is_root_session(t, out@[i].root_pid, out@[i]) {
                let h = choose|h: int| 0 <= h < g && is_profile_session(t, names@[h]@, out@[i]);
            }
        }
        assert forall|v: Seq<char>| #[trigger]
            has_group(t, v) implies exists|i: int| 0 <= i < out@.len() && is_profile_session(t, v, #[trigger] out@[i]) by {
            let h = choose|h: int| 0 <= h < names@.len() && #[trigger] names@[h]@ == v;
            let i = choose|i: int| 0 <= i < out@.len() && is_profile_session(t, #[trigger] names@[h]@, out@[i]);
        }
    }
    out
}

/// The sessions running on the machine: one for each `agent-browser` driver and each
/// Playwright runner, holding the process tree below it, then one for each automation profile
/// named by processes outside those trees. The monitor shows them ordered by CPU use, which it
/// measures itself.
pub fn sessions(all: &ProcessTable) -> (r: Vec<Session>)
    requires
        group_walks_end(all@),
    ensures
        sessions_of(all@, r@),
{
    let entries = all.entries();
    let (out, taken) = root_sessions(all, &entries);
    let (names, members) = profile_groups(all, &entries, &taken);
    add_group_sessions(all, out, &names, &members)
}

/// The sessions running on the machine, when every walk up from a profile group member
/// through browser parents ends; nothing when one of them goes round a cycle of browsers
/// forever.
pub fn try_sessions(all: &ProcessTable) -> (r: Option<Vec<Session>>)
    ensures
        match r {
            Some(v) => group_walks_end(all@) && sessions_of(all@, v@),
            None => !group_walks_end(all@),
        },
{
    let ghost t = all@;
    let entries = all.entries();
    let (out, taken) = root_sessions(all, &entries);
    let (names, members) = profile_groups(all, &entries, &taken);
    let mut g: usize = 0;
    while g < members.len()
        invariant
            g <= members@.len(),
            t == all@,
            names@.len() == members@.len(),
            forall|h: int, x: i32|
                0 <= h < members@.len() ==> (#[trigger] members@[h]@.contains(x) <==> in_group(t, names@[h]@, x)),
            forall|h: int, i: int|
                0 <= h < g && 0 <= i < members@[h]@.len() ==> climb_ends(t, #[trigger] members@[h]@[i]),
        decreases members.len() - g,
    {
        let mut i: usize = 0;
        while i < members[g].len()
            invariant
                g < members@.len(),
                i <= members@[g as int]@.len(),
                t == all@,
                forall|h: int, x: i32|
                    0 <= h < members@.len() ==> (#[trigger] members@[h]@.contains(x) <==> in_group(t, names@[h]@, x)),
                forall|h: int, j: int|
                    0 <= h < g && 0 <= j < members@[h]@.len() ==> climb_ends(t, #[trigger] members@[h]@[j]),
                forall|j: int| 0 <= j < i ==> climb_ends(t, #[trigger] members@[g as int]@[j]),
            decreases members@[g as int]@.len() - i,
        {
            let k = members[g][i];
            if !climb_stops(all, k) {
                proof {
                    assert(members@[g as int]@.contains(k));
                    assert(in_group(t, names@[g as int]@, k));
                }
                return None;
            }
            i = i + 1;
        }
        g = g + 1;
    }
    proof {
        assert forall|k: i32| #[trigger] t.contains_key(k) && !claimed(t, k) && profile_of(t[k]) is Some implies climb_ends(t, k) by {
            let v = profile_of(t[k])->0;
            assert(in_group(t, v, k));
            assert(has_group(t, v));
            let h = choose|h: int| 0 <= h < names@.len() && #[trigger] names@[h]@ == v;
            assert(members@[h]@.contains(k));
            let i = choose|i: int| 0 <= i < members@[h]@.len() && members@[h]@[i] == k;
            assert(climb_ends(t, members@[h]@[i]));
        }
    }
    Some(add_group_sessions(all, out, &names, &members))
}

} // verus!