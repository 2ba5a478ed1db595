//! Stopping a session: which processes to signal, in which order, and which of them still run
//! after the grace period and are killed.
use vstd::prelude::*;
use crate::process::{ProcessInfo, ProcessTable};
use crate::session::{
    Session, group_ids, group_walks_end, has_group, is_profile_session, is_root_session,
    is_session_root, lemma_profile_ids_differ, lemma_root_and_profile_ids_differ,
    lemma_root_ids_differ, members_in_order, profile_session_id, root_session_id, sessions,
    sessions_of, try_sessions,
};
use crate::text::str_equal;
use crate::tree::subtree;

verus! {

/// The message given when the requested session is not running any more.
pub open spec fn gone_message() -> Seq<char> {
    "Session is no longer a verified agent-browser or Playwright tree."@
}

/// The pids of the session with the given id, if the table has such a session.
pub open spec fn session_pids(t: Map<i32, ProcessInfo>, id: Seq<char>) -> Option<Set<i32>> {
    if exists|k: i32| t.contains_key(k) && is_session_root(t[k]) && root_session_id(t, k) == id {
        Some(
            subtree(
                t,
                choose|k: i32| t.contains_key(k) && is_session_root(t[k]) && root_session_id(t, k) == id,
            ),
        )
    } else if exists|v: Seq<char>| has_group(t, v) && profile_session_id(v) == id {
        Some(group_ids(t, choose|v: Seq<char>| has_group(t, v) && profile_session_id(v) == id))
    } else {
        None
    }
}

/// `ps` lists, in decreasing pid order, exactly the processes of `t` whose pid is in `ids`.
pub open spec fn members_in_reverse(t: Map<i32, ProcessInfo>, ids: Set<i32>, ps: Seq<ProcessInfo>) -> bool {
    &&& forall|i: int, j: int| 0 <= i < j < ps.len() ==> ps[i].pid > ps[j].pid
    &&& forall|i: int| #![trigger ps[i]]
        0 <= i < ps.len() ==> ids.contains(ps[i].pid) && t.contains_key(ps[i].pid) && t[ps[i].pid]
            == ps[i]
    &&& forall|k: i32| #[trigger] t.contains_key(k) && ids.contains(k) ==> exists|i: int|
        0 <= i < ps.len() && #[trigger] ps[i].pid == k
}

/// The processes of the session with id `session_id`, highest pid first: the order in which
/// they are signalled. The session must still be one of those the table shows; otherwise the
/// request is refused with a message.
pub fn termination_targets(all: &ProcessTable, session_id: &str) -> (r: Result<Vec<ProcessInfo>, String>)
    requires
        group_walks_end(all@),
    ensures
        match r {
            Ok(ts) => session_pids(all@, session_id@) matches Some(ids) && members_in_reverse(
                all@,
                ids,
                ts@,
            ),
            Err(e) => session_pids(all@, session_id@) is None && e@ == gone_message(),
        },
{
    let ghost t = all@;
    let ghost id = session_id@;
    let ss = sessions(all);
    let mut i: usize = 0;
    while i < ss.len()
        invariant
            i <= ss@.len(),
            t == all@,
            id == session_id@,
            sessions_of(t, ss@),
            forall|j: int| 0 <= j < i ==> (#[trigger] ss@[j]).id@ != id,
        decreases ss.len() - i,
    {
        if str_equal(ss[i].id.as_str(), session_id) {
            let ghost s = ss@[i as int];
            proof {
                if is_root_session(t, s.root_pid, s) {
                    let k = s.root_pid;
                    let k2 = choose|k: i32| t.contains_key(k) && is_session_root(t[k]) && root_session_id(t, k) == id;
                    if k2 != k {
                        lemma_root_ids_differ(t, k, k2);
                    }
                    assert(session_pids(t, id) == Some(subtree(t, k)));
                } else {
                    let v = choose|v: Seq<char>| is_profile_session(t, v, s);
                    assert forall|k: i32| !(t.contains_key(k) && is_session_root(t[k]) && root_session_id(t, k) == id) by {
                        lemma_root_and_profile_ids_differ(t, k, v);
                    }
                    let v2 = choose|v: Seq<char>| has_group(t, v) && profile_session_id(v) == id;
                    if v2 != v {
                        lemma_profile_ids_differ(v, v2);
                    }
                    assert(session_pids(t, id) == Some(group_ids(t, v)));
                }
            }
            let ps = &ss[i].processes;
            let mut out: Vec<ProcessInfo> = Vec::new();
            let mut j: usize = ps.len();
            while j > 0
                invariant
                    j <= ps@.len(),
                    out@.len() == ps@.len() - j,
                    forall|a: int| 0 <= a < out@.len() ==> #[trigger] out@[a] == ps@[ps@.len() - 1 - a],
                decreases j,
            {
                j = j - 1;
                let p = ps[j].clone();
                out.push(p);
            }
            proof {
                let ids = session_pids(t, id)->0;
                assert(members_in_order(t, ids, ps@));
                assert forall|k: i32| #[trigger] t.contains_key(k) && ids.contains(k) implies exists|a: int|
                    0 <= a < out@.len() && #[trigger] out@[a].pid == k by {
                    let b = choose|b: int| 0 <= b < ps@.len() && #[trigger] ps@[b].pid == k;
                    assert(out@[ps@.len() - 1 - b] == ps@[b]);
                }
                assert forall|a: int, c: int| 0 <= a < c < out@.len() implies out@[a].pid > out@[c].pid by {
                    assert(out@[a] == ps@[ps@.len() - 1 - a]);
                    assert(out@[c] == ps@[ps@.len() - 1 - c]);
                }
                assert forall|a: int| #![trigger out@[a]]
                    0 <= a < out@.len() implies ids.contains(out@[a].pid) && t.contains_key(out@[a].pid) && t[out@[a].pid] == out@[a] by {
                    assert(out@[a] == ps@[ps@.len() - 1 - a]);
                }
            }
            return Ok(out);
        }
        i = i + 1;
    }
    proof {
        if exists|k: i32| t.contains_key(k) && is_session_root(t[k]) && root_session_id(t, k) == id {
            let k = choose|k: i32| t.contains_key(k) && is_session_root(t[k]) && root_session_id(t, k) == id;
            let j = choose|j: int| 0 <= j < ss@.len() && is_root_session(t, k, #[trigger] ss@[j]);
            assert(ss@[j].id@ != id);
        }
        if exists|v: Seq<char>| has_group(t, v) && profile_session_id(v) == id {
            let v = choose|v: Seq<char>| has_group(t, v) && profile_session_id(v) == id;
            let j = choose|j: int| 0 <= j < ss@.len() && is_profile_session(t, v, #[trigger] ss@[j]);
            assert(ss@[j].id@ != id);
        }
    }
    Err(String::from_str("Session is no longer a verified agent-browser or Playwright tree."))
}

/// Whether every walk up from a profile group member through browser parents ends, so that
/// the sessions of the table can be computed.
pub fn walks_end(all: &ProcessTable) -> (b: bool)
    ensures
        b == group_walks_end(all@),
{
    try_sessions(all).is_some()
}

/// The signal sent to a process being stopped: `SIGKILL` when forced, `SIGTERM` otherwise.
pub fn stop_signal(force: bool) -> (sig: i32)
    ensures
        sig == if force {
            9i32
        } else {
            15i32
        },
{
    if force {
        9
    } else {
        15
    }
}

/// The target is still running: the table has a process with its pid and its start marker,
/// so the pid has not been reused by another process.
pub open spec fn still_there(now: Map<i32, ProcessInfo>, p: ProcessInfo) -> bool {
    now.contains_key(p.pid) && now[p.pid].marker == p.marker
}

/// The pids of the targets that are still running, in the order of `targets`.
pub open spec fn survivors(now: Map<i32, ProcessInfo>, targets: Seq<ProcessInfo>) -> Seq<i32>
    decreases targets.len(),
{
    if targets.len() == 0 {
        seq![]
    } else {
        let rest = survivors(now, targets.drop_last());
        if still_there(now, targets.last()) {
            rest.push(targets.last().pid)
        } else {
            rest
        }
    }
}

/// The targets that still run after the grace period, by pid, in the order they are killed.
pub fn still_running(targets: &Vec<ProcessInfo>, now: &ProcessTable) -> (r: Vec<i32>)
    ensures
        r@ == survivors(now@, targets@),
{
    let mut r: Vec<i32> = Vec::new();
    let mut i: usize = 0;
    while i < targets.len()
        invariant
            i <= targets@.len(),
            r@ == survivors(now@, targets@.take(i as int)),
        decreases targets.len() - i,
    {
        proof {
            assert(targets@.take(i + 1).drop_last() =~= targets@.take(i as int));
        }
        let keep = match now.get(targets[i].pid) {
            Some(y) => y.marker == targets[i].marker,
            None => false,
        };
        if keep {
            r.push(targets[i].pid);
        }
        i = i + 1;
    }
    assert(targets@.take(targets@.len() as int) =~= targets@);
    r
}

/// After the grace period exactly the targets still running are killed, in the order of the
/// targets: those whose pid the new table holds with the same start marker.
pub proof fn law_kill_exactly_surviving_targets(now: Map<i32, ProcessInfo>, targets: Seq<ProcessInfo>)
    ensures
        survivors(now, targets) == targets.filter(
            |x: ProcessInfo| now.contains_key(x.pid) && now[x.pid].marker == x.marker,
        ).map_values(|x: ProcessInfo| x.pid),
    decreases targets.len(),
{
    let pred = |x: ProcessInfo| now.contains_key(x.pid) && now[x.pid].marker == x.marker;
    reveal(Seq::filter);
    if targets.len() == 0 {
        assert(targets.filter(pred).map_values(|x: ProcessInfo| x.pid) =~= seq![]);
    } else {
        let prev = targets.drop_last();
        law_kill_exactly_surviving_targets(now, prev);
        let f = prev.filter(pred);
        assert(targets.filter(pred) == if pred(targets.last()) {
            f.push(targets.last())
        } else {
            f
        });
        if pred(targets.last()) {
            assert(f.push(targets.last()).map_values(|x: ProcessInfo| x.pid) =~= f.map_values(
                |x: ProcessInfo| x.pid,
            ).push(targets.last().pid));
        }
    }
}

} // verus!
