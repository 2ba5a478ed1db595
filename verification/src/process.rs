//! Processes, the table of the processes running on the machine (keyed by pid), and how a
//! process is recognised as an automation driver, a Playwright runner or a browser.
use vstd::prelude::*;
use std::collections::HashMap;
use crate::command::AGENT;
use crate::text::{contains, lowercase, str_contains, str_equal, str_to_lowercase};

verus! {

broadcast use vstd::std_specs::hash::group_hash_axioms;

/// One running process, as the monitor sees it. Its CPU and memory figures are measured
/// outside the library.
#[derive(Debug)]
pub struct ProcessInfo {
    pub pid: i32,
    pub ppid: i32,
    pub name: String,
    pub state: String,
    pub elapsed_seconds: u64,
    pub command: String,
    /// The kernel's start time of the process: a pid reused by a new process gets a new marker.
    pub marker: u64,
}

impl Clone for ProcessInfo {
    fn clone(&self) -> (r: Self)
        ensures
            r == *self,
    {
        ProcessInfo {
            pid: self.pid,
            ppid: self.ppid,
            name: self.name.clone(),
            state: self.state.clone(),
            elapsed_seconds: self.elapsed_seconds,
            command: self.command.clone(),
            marker: self.marker,
        }
    }
}

/// Every process in `t` is stored under its own pid.
pub open spec fn keys_are_pids(t: Map<i32, ProcessInfo>) -> bool {
    forall|k: i32| #[trigger] t.contains_key(k) ==> t[k].pid == k
}

/// The processes of the machine, each stored under its pid.
pub struct ProcessTable {
    map: HashMap<i32, ProcessInfo>,
}

impl View for ProcessTable {
    type V = Map<i32, ProcessInfo>;

    closed spec fn view(&self) -> Map<i32, ProcessInfo> {
        self.map@
    }
}

impl ProcessTable {
    #[verifier::type_invariant]
    spec fn well_formed(self) -> bool {
        keys_are_pids(self.map@)
    }

    /// An empty table.
    pub fn new() -> (r: Self)
        ensures
            r@ == Map::<i32, ProcessInfo>::empty(),
    {
        ProcessTable { map: HashMap::new() }
    }

    /// Stores `p` under its pid, replacing any process stored there before.
    pub fn insert(&mut self, p: ProcessInfo)
        ensures
            final(self)@ == old(self)@.insert(p.pid, p),
    {
        proof {
            use_type_invariant(&*self);
        }
        let mut map = HashMap::new();
        std::mem::swap(&mut map, &mut self.map);
        let pid = p.pid;
        map.insert(pid, p);
        self.map = map;
    }

    /// The number of processes in the table.
    pub fn len(&self) -> (n: usize)
        ensures
            n == self@.dom().len(),
            self@.dom().finite(),
            keys_are_pids(self@),
    {
        proof {
            use_type_invariant(self);
        }
        self.map.len()
    }

    /// The process stored under `pid`.
    pub fn get(&self, pid: i32) -> (r: Option<&ProcessInfo>)
        ensures
            keys_are_pids(self@),
            match r {
                Some(p) => self@.contains_key(pid) && *p == self@[pid],
                None => !self@.contains_key(pid),
            },
    {
        proof {
            use_type_invariant(self);
        }
        self.map.get(&pid)
    }

    /// Every process of the table once, in the table's own order.
    pub fn entries(&self) -> (r: Vec<ProcessInfo>)
        ensures
            keys_are_pids(self@),
            self@.dom().finite(),
            r@.len() == self@.dom().len(),
            forall|i: int| #![trigger r@[i]]
                0 <= i < r@.len() ==> self@.contains_key(r@[i].pid) && self@[r@[i].pid] == r@[i],
            forall|k: i32| #[trigger] self@.contains_key(k) ==> exists|i: int|
                0 <= i < r@.len() && #[trigger] r@[i].pid == k,
            forall|i: int, j: int|
                0 <= i < r@.len() && 0 <= j < r@.len() && i != j ==> r@[i].pid != r@[j].pid,
    {
        proof {
            use_type_invariant(self);
            vstd::set_lib::lemma_set_empty_equivalency_len(self.map@.dom());
        }
        let mut r: Vec<ProcessInfo> = Vec::new();
        for kv in it: self.map.iter()
            invariant
                keys_are_pids(self.map@),
                self.map@.dom().len() == 0 ==> self.map@.dom() == Set::<i32>::empty(),
                it.seq().len() == self.map@.dom().len(),
                forall|i: int| 0 <= i < it.seq().len() ==> self.map@.contains_key(*it.seq()[i].0)
                    && self.map@[*it.seq()[i].0] == *it.seq()[i].1,
                forall|k: i32| #[trigger] self.map@.contains_key(k) ==> it.seq().contains(
                    (&k, &self.map@[k]),
                ),
                r@.len() == it.index(),
                forall|i: int| 0 <= i < r@.len() ==> r@[i] == *it.seq()[i].1,
                it.index() == it.seq().len() ==> forall|k: i32| #[trigger]
                    self.map@.contains_key(k) ==> exists|i: int|
                        0 <= i < r@.len() && #[trigger] r@[i].pid == k,
        {
            let (_k, p) = kv;
            r.push(p.clone());
            assert forall|k: i32|
                it.index() + 1 == it.seq().len() && #[trigger] self.map@.contains_key(k) implies exists|i: int|
                0 <= i < r@.len() && #[trigger] r@[i].pid == k by {
                assert(r@[choose|i: int| 0 <= i < it.seq().len() && it.seq()[i] == (&k, &self.map@[k])].pid == k);
            }
        }
        let ghost keys = r@.map_values(|p: ProcessInfo| p.pid);
        proof {
            assert(keys.to_set() =~= self@.dom()) by {
                assert forall|k: i32| keys.to_set().contains(k) implies self@.contains_key(k) by {
                    let i = choose|i: int| 0 <= i < keys.len() && keys[i] == k;
                    assert(r@[i].pid == k);
                }
                assert forall|k: i32| self@.contains_key(k) implies keys.to_set().contains(k) by {
                    let i = choose|i: int| 0 <= i < r@.len() && #[trigger] r@[i].pid == k;
                    assert(keys[i] == k);
                }
            }
            keys.lemma_no_dup_set_cardinality();
            assert forall|i: int, j: int|
                0 <= i < r@.len() && 0 <= j < r@.len() && i != j implies r@[i].pid
                != r@[j].pid by {
                assert(keys[i] == r@[i].pid && keys[j] == r@[j].pid);
            }
        }
        r
    }

    /// Every process of the table as a pair of its pid and its parent's pid.
    pub fn links(&self) -> (r: Vec<(i32, i32)>)
        ensures
            keys_are_pids(self@),
            self@.dom().finite(),
            forall|i: int| #![trigger r@[i]]
                0 <= i < r@.len() ==> self@.contains_key(r@[i].0) && self@[r@[i].0].ppid
                    == r@[i].1,
            forall|k: i32| #[trigger] self@.contains_key(k) ==> exists|i: int|
                0 <= i < r@.len() && #[trigger] r@[i].0 == k,
    {
        proof {
            use_type_invariant(self);
            vstd::set_lib::lemma_set_empty_equivalency_len(self.map@.dom());
        }
        let mut r: Vec<(i32, i32)> = Vec::new();
        for kv in it: self.map.iter()
            invariant
                self.map@.dom().len() == 0 ==> self.map@.dom() == Set::<i32>::empty(),
                it.seq().len() == self.map@.dom().len(),
                forall|i: int| 0 <= i < it.seq().len() ==> self.map@.contains_key(*it.seq()[i].0)
                    && self.map@[*it.seq()[i].0] == *it.seq()[i].1,
                forall|k: i32| #[trigger] self.map@.contains_key(k) ==> it.seq().contains(
                    (&k, &self.map@[k]),
                ),
                r@.len() == it.index(),
                forall|i: int|
                    0 <= i < r@.len() ==> r@[i] == (*it.seq()[i].0, it.seq()[i].1.ppid),
                it.index() == it.seq().len() ==> forall|k: i32| #[trigger]
                    self.map@.contains_key(k) ==> exists|i: int|
                        0 <= i < r@.len() && #[trigger] r@[i].0 == k,
        {
            let (k, p) = kv;
            r.push((*k, p.ppid));
            assert forall|k: i32|
                it.index() + 1 == it.seq().len() && #[trigger] self.map@.contains_key(k) implies exists|i: int|
                0 <= i < r@.len() && #[trigger] r@[i].0 == k by {
                assert(r@[choose|i: int| 0 <= i < it.seq().len() && it.seq()[i] == (&k, &self.map@[k])].0 == k);
            }
        }
        r
    }
}

/// The process is an `agent-browser` driver: its command line names the driver.
pub open spec fn is_agent(p: ProcessInfo) -> bool {
    contains(p.command@, AGENT@)
}

/// A lowercase command line that runs Playwright.
pub open spec fn playwright_command(lowered: Seq<char>) -> bool {
    contains(lowered, "playwright-core"@) || contains(lowered, "@playwright/test"@) || contains(
        lowered,
        "playwright/cli"@,
    )
}

/// The process is a Playwright runner.
pub open spec fn is_playwright(p: ProcessInfo) -> bool {
    playwright_command(lowercase(p.command@))
}

/// A lowercase process name that is a browser.
pub open spec fn browser_name(lowered: Seq<char>) -> bool {
    lowered == "chrome"@ || lowered == "chromium"@ || contains(lowered, "firefox"@) || contains(
        lowered,
        "webkit"@,
    ) || contains(lowered, "msedge"@)
}

/// The process is a browser.
pub open spec fn is_browser(p: ProcessInfo) -> bool {
    browser_name(lowercase(p.name@))
}

/// Whether the process is an `agent-browser` driver.
pub fn agent(p: &ProcessInfo) -> (b: bool)
    ensures
        b == is_agent(*p),
{
    str_contains(p.command.as_str(), AGENT)
}

/// Whether a lowercase command line runs Playwright.
pub fn is_playwright_command(lowered: &str) -> (b: bool)
    ensures
        b == playwright_command(lowered@),
{
    str_contains(lowered, "playwright-core") || str_contains(lowered, "@playwright/test")
        || str_contains(lowered, "playwright/cli")
}

/// Whether the process is a Playwright runner.
pub fn playwright(p: &ProcessInfo) -> (b: bool)
    ensures
        b == is_playwright(*p),
{
    let lowered = str_to_lowercase(p.command.as_str());
    is_playwright_command(lowered.as_str())
}

/// Whether a lowercase process name is a browser.
pub fn is_browser_name(lowered: &str) -> (b: bool)
    ensures
        b == browser_name(lowered@),
{
    str_equal(lowered, "chrome") || str_equal(lowered, "chromium") || str_contains(
        lowered,
        "firefox",
    ) || str_contains(lowered, "webkit") || str_contains(lowered, "msedge")
}

/// Whether the process is a browser.
pub fn browser(p: &ProcessInfo) -> (b: bool)
    ensures
        b == is_browser(*p),
{
    let lowered = str_to_lowercase(p.name.as_str());
    is_browser_name(lowered.as_str())
}

} // verus!
