//! The figures of a snapshot that the library computes: process counts, CPU sampling windows,
//! and processes described by the Windows process inventory.
use vstd::prelude::*;
use crate::command::{profile, profile_of_command, redact, redacted};
use crate::process::{ProcessInfo, ProcessTable, agent, is_agent};
use crate::session::opt_view;

verus! {

/// The pids of the processes of `t` that satisfy `pred`.
pub open spec fn pids_where(t: Map<i32, ProcessInfo>, pred: spec_fn(ProcessInfo) -> bool) -> Set<i32> {
    t.dom().filter(|k: i32| pred(t[k]))
}

/// The process names an automation profile on its command line.
pub open spec fn names_profile(p: ProcessInfo) -> bool {
    profile_of_command(p.command@) is Some
}

/// How many processes are `agent-browser` drivers, and how many name an automation profile.
pub fn process_counts(all: &ProcessTable) -> (r: (usize, usize))
    ensures
        r.0 == pids_where(all@, |p: ProcessInfo| is_agent(p)).len(),
        r.1 == pids_where(all@, |p: ProcessInfo| names_profile(p)).len(),
{
    let ghost t = all@;
    let entries = all.entries();
    let ghost agents_pred = |p: ProcessInfo| is_agent(p);
    let ghost profile_pred = |p: ProcessInfo| names_profile(p);
    let mut agents: usize = 0;
    let mut profiled: usize = 0;
    let ghost mut agent_set: Set<i32> = Set::empty();
    let ghost mut profile_set: Set<i32> = Set::empty();
    let mut n: usize = 0;
    while n < entries.len()
        invariant
            n <= entries@.len(),
            t == all@,
            entries@.len() == t.dom().len(),
            t.dom().finite(),
            forall|i: int| #![trigger entries@[i]]
                0 <= i < entries@.len() ==> t.contains_key(entries@[i].pid) && t[entries@[i].pid]
                    == entries@[i],
            forall|k: i32| #[trigger] t.contains_key(k) ==> exists|i: int|
                0 <= i < entries@.len() && #[trigger] entries@[i].pid == k,
            forall|i: int, j: int|
                0 <= i < entries@.len() && 0 <= j < entries@.len() && i != j ==> entries@[i].pid != entries@[j].pid,
            agent_set.finite(),
            profile_set.finite(),
            agents as nat == agent_set.len(),
            profiled as nat == profile_set.len(),
            agents <= n,
            profiled <= n,
            forall|x: i32| #[trigger] agent_set.contains(x) <==> exists|i: int|
                0 <= i < n && #[trigger] entries@[i].pid == x && is_agent(entries@[i]),
            forall|x: i32| #[trigger] profile_set.contains(x) <==> exists|i: int|
                0 <= i < n && #[trigger] entries@[i].pid == x && names_profile(entries@[i]),
        decreases entries.len() - n,
    {
        let p = &entries[n];
        proof {
            assert forall|i: int| 0 <= i < n implies #[trigger] entries@[i].pid != p.pid by {
            }
        }
        if agent(p) {
            proof {
                assert(!agent_set.contains(p.pid));
                agent_set = agent_set.insert(p.pid);
            }
            agents = agents + 1;
        }
        if profile(p.command.as_str()).is_some() {
            proof {
                assert(!profile_set.contains(p.pid));
                profile_set = profile_set.insert(p.pid);
            }
            profiled = profiled + 1;
        }
        proof {
            assert forall|x: i32| #[trigger] agent_set.contains(x) <==> exists|i: int|
                0 <= i < n + 1 && #[trigger] entries@[i].pid == x && is_agent(entries@[i]) by {
                if exists|i: int| 0 <= i < n + 1 && #[trigger] entries@[i].pid == x && is_agent(entries@[i]) {
                    let i = choose|i: int| 0 <= i < n + 1 && #[trigger] entries@[i].pid == x && is_agent(entries@[i]);
                    if i < n {
                        assert(agent_set.contains(x));
                    }
                }
            }
            assert forall|x: i32| #[trigger] profile_set.contains(x) <==> exists|i: int|
                0 <= i < n + 1 && #[trigger] entries@[i].pid == x && names_profile(entries@[i]) by {
                if exists|i: int| 0 <= i < n + 1 && #[trigger] entries@[i].pid == x && names_profile(entries@[i]) {
                    let i = choose|i: int| 0 <= i < n + 1 && #[trigger] entries@[i].pid == x && names_profile(entries@[i]);
                    if i < n {
                        assert(profile_set.contains(x));
                    }
                }
            }
        }
        n = n + 1;
    }
    proof {
        assert(agent_set =~= pids_where(t, agents_pred)) by {
            assert forall|x: i32| pids_where(t, agents_pred).contains(x) implies agent_set.contains(x) by {
                let i = choose|i: int| 0 <= i < entries@.len() && #[trigger] entries@[i].pid == x;
            }
        }
        assert(profile_set =~= pids_where(t, profile_pred)) by {
            assert forall|x: i32| pids_where(t, profile_pred).contains(x) implies profile_set.contains(x) by {
                let i = choose|i: int| 0 <= i < entries@.len() && #[trigger] entries@[i].pid == x;
            }
        }
    }
    (agents, profiled)
}

/// The text of an optional string, empty when there is none.
pub open spec fn text_or_empty(o: Option<Seq<char>>) -> Seq<char> {
    match o {
        Some(s) => s,
        None => seq![],
    }
}

/// `p` is the process that the Windows process inventory describes by the fields `ProcessId`,
/// `ParentProcessId`, `Name` and `CommandLine`: a missing parent is 0, a missing name empty,
/// and a missing command line is the name. Windows reports neither a state nor a start time.
pub open spec fn is_windows_process(
    pid: i64,
    ppid: Option<i64>,
    name: Option<Seq<char>>,
    command_line: Option<Seq<char>>,
    p: ProcessInfo,
) -> bool {
    &&& p.pid == pid as i32
    &&& p.ppid == (match ppid {
        Some(x) => x,
        None => 0,
    }) as i32
    &&& p.name@ == text_or_empty(name)
    &&& p.state@ == "Running"@
    &&& p.elapsed_seconds == 0
    &&& p.marker == 0
    &&& p.command@ == redacted(
        match command_line {
            Some(c) => c,
            None => text_or_empty(name),
        },
    )
}

/// A process of the Windows process inventory, from its `ProcessId`, `ParentProcessId`, `Name`
/// and `CommandLine` fields.
pub fn windows_process(
    pid: i64,
    ppid: Option<i64>,
    name: Option<String>,
    command_line: Option<String>,
) -> (p: ProcessInfo)
    ensures
        is_windows_process(pid, ppid, opt_view(name), opt_view(command_line), p),
{
    let parent: i64 = match ppid {
        Some(x) => x,
        None => 0,
    };
    let name = match name {
        Some(n) => n,
        None => String::new(),
    };
    let command = match command_line {
        Some(c) => redact(c.as_str()),
        None => redact(name.as_str()),
    };
    ProcessInfo {
        pid: pid as i32,
        ppid: parent as i32,
        name,
        state: String::from_str("Running"),
        elapsed_seconds: 0,
        command,
        marker: 0,
    }
}

/// The idle ticks and the total ticks of the window between two samples of `/proc/stat`
/// (`(total, idle)` each), when the monitor measures CPU use over it: the total advanced and at
/// least 100 ms passed. Counters that went backwards count as no progress.
pub fn cpu_window(prev: (u64, u64), cur: (u64, u64), elapsed_ms: u128) -> (r: Option<(u64, u64)>)
    ensures
        match r {
            Some((idle, total)) => {
                &&& cur.0 > prev.0
                &&& elapsed_ms >= 100
                &&& total == cur.0 - prev.0
                &&& idle == if cur.1 >= prev.1 {
                    cur.1 - prev.1
                } else {
                    0
                }
            },
            None => cur.0 <= prev.0 || elapsed_ms < 100,
        },
{
    let total = cur.0.saturating_sub(prev.0);
    if total == 0 || elapsed_ms < 100 {
        None
    } else {
        Some((cur.1.saturating_sub(prev.1), total))
    }
}

/// The CPU ticks a process used since its previous sample (`(ticks, start marker)`), when that
/// sample is of the same process: a reused pid has another start marker. Ticks that went
/// backwards count as none.
pub fn tick_delta(prev: Option<(u64, u64)>, ticks: u64, marker: u64) -> (r: Option<u64>)
    ensures
        match prev {
            Some((old, old_marker)) => if old_marker == marker {
                r == Some(if ticks >= old {
                    (ticks - old) as u64
                } else {
                    0
                })
            } else {
                r is None
            },
            None => r is None,
        },
{
    match prev {
        Some((old, old_marker)) => if old_marker == marker {
            Some(ticks.saturating_sub(old))
        } else {
            None
        },
        None => None,
    }
}

} // verus!
