use agent_browser_monitor::process::{agent, browser, playwright, ProcessInfo, ProcessTable};
use agent_browser_monitor::session::{make_session, sessions, try_sessions, Session};
use agent_browser_monitor::snapshot::process_counts;
use agent_browser_monitor::terminate::{stop_signal, still_running, termination_targets, walks_end};
use agent_browser_monitor::tree::{climb_stops, descendants, top_of};
use std::collections::HashSet;

fn proc(pid: i32, ppid: i32, name: &str, command: &str, elapsed: u64, marker: u64) -> ProcessInfo {
    ProcessInfo {
        pid,
        ppid,
        name: name.to_string(),
        state: "S".to_string(),
        elapsed_seconds: elapsed,
        command: command.to_string(),
        marker,
    }
}

fn table(ps: Vec<ProcessInfo>) -> ProcessTable {
    let mut t = ProcessTable::new();
    for p in ps {
        t.insert(p);
    }
    t
}

fn machine() -> ProcessTable {
    table(vec![
        proc(1, 0, "systemd", "/sbin/init", 1000, 1),
        proc(100, 1, "node", "node /opt/agent-browser-linux-x64 --port 1", 50, 2),
        proc(101, 100, "chrome", "chrome --user-data-dir=/tmp/agent-browser-chrome-abc", 40, 3),
        proc(102, 101, "chrome", "chrome --type=renderer", 30, 4),
        proc(200, 1, "chrome", "chrome --user-data-dir=/tmp/playwright_chromiumdev_profile-1", 20, 5),
        proc(201, 200, "chrome", "chrome --type=gpu", 10, 6),
        proc(300, 1, "chrome", "chrome --user-data-dir=/home/u/.config", 5, 7),
    ])
}

fn find<'a>(ss: &'a [Session], id: &str) -> &'a Session {
    ss.iter().find(|s| s.id == id).expect("session")
}

fn pids(s: &Session) -> Vec<i32> {
    s.processes.iter().map(|p| p.pid).collect()
}

#[test]
fn table_keeps_one_process_per_pid() {
    let mut t = ProcessTable::new();
    t.insert(proc(5, 1, "a", "a", 0, 0));
    t.insert(proc(5, 2, "b", "b", 0, 0));
    assert_eq!(t.len(), 1);
    assert_eq!(t.get(5).unwrap().name, "b");
    assert!(t.get(6).is_none());
}

#[test]
fn recognises_drivers_runners_and_browsers() {
    assert!(agent(&proc(1, 0, "node", "node agent-browser-linux-x64", 0, 0)));
    assert!(!agent(&proc(1, 0, "node", "node Agent-Browser-Linux-X64", 0, 0)));
    assert!(playwright(&proc(1, 0, "node", "node /x/node_modules/@Playwright/Test/cli.js", 0, 0)));
    assert!(playwright(&proc(1, 0, "node", "npx playwright-core", 0, 0)));
    assert!(!playwright(&proc(1, 0, "node", "npx playwright", 0, 0)));
    assert!(browser(&proc(1, 0, "Chrome", "", 0, 0)));
    assert!(browser(&proc(1, 0, "firefox-bin", "", 0, 0)));
    assert!(browser(&proc(1, 0, "MicrosoftEdge msedge", "", 0, 0)));
    assert!(!browser(&proc(1, 0, "chrome_crashpad", "", 0, 0)));
}

#[test]
fn descendants_walks_down_the_tree() {
    let t = table(vec![
        proc(1, 0, "a", "a", 0, 0),
        proc(2, 1, "b", "b", 0, 0),
        proc(3, 2, "c", "c", 0, 0),
        proc(4, 1, "d", "d", 0, 0),
        proc(5, 9, "e", "e", 0, 0),
    ]);
    assert_eq!(descendants(1, &t), HashSet::from([1, 2, 3, 4]));
    assert_eq!(descendants(3, &t), HashSet::from([3]));
    assert_eq!(descendants(9, &t), HashSet::from([9, 5]));
}

#[test]
fn descendants_stops_on_cycles() {
    let t = table(vec![proc(10, 11, "a", "a", 0, 0), proc(11, 10, "b", "b", 0, 0)]);
    assert_eq!(descendants(10, &t), HashSet::from([10, 11]));
}

#[test]
fn top_climbs_through_browsers() {
    let t = table(vec![
        proc(1, 0, "systemd", "", 0, 0),
        proc(400, 1, "chrome", "chrome", 0, 0),
        proc(401, 400, "chrome", "chrome --type=gpu", 0, 0),
        proc(402, 401, "node", "node", 0, 0),
    ]);
    assert_eq!(top_of(&t, 401), 400);
    assert_eq!(top_of(&t, 402), 400);
    assert_eq!(top_of(&t, 400), 400);
}

#[test]
fn climb_detects_browser_cycles() {
    let t = table(vec![proc(7, 8, "chrome", "", 0, 0), proc(8, 7, "chrome", "", 0, 0)]);
    assert!(!climb_stops(&t, 7));
    let u = table(vec![proc(7, 8, "chrome", "", 0, 0), proc(8, 1, "chrome", "", 0, 0)]);
    assert!(climb_stops(&u, 7));
}

#[test]
fn make_session_orders_processes_and_finds_age() {
    let t = machine();
    let s = make_session("x".to_string(), None, 999, None, HashSet::from([102, 101, 5000]), &t);
    assert_eq!(pids(&s), vec![101, 102]);
    assert_eq!(s.kind, "Playwright");
    assert_eq!(s.active_seconds, 30);
    let s2 = make_session("y".to_string(), Some("/tmp/agent-browser-chrome-1".to_string()), 1, Some(1), HashSet::from([1]), &t);
    assert_eq!(s2.kind, "Agent browser");
    assert_eq!(s2.active_seconds, 1000);
    let s3 = make_session("z".to_string(), None, 999, None, HashSet::new(), &t);
    assert_eq!(s3.active_seconds, 0);
    assert!(s3.processes.is_empty());
}

#[test]
fn sessions_of_a_machine() {
    let t = machine();
    let ss = sessions(&t);
    assert_eq!(ss.len(), 2);
    let a = find(&ss, "agent:100");
    assert_eq!(a.kind, "Agent browser");
    assert_eq!(a.profile, Some("/tmp/agent-browser-chrome-abc".to_string()));
    assert_eq!(a.root_pid, 100);
    assert_eq!(a.agent_pid, Some(100));
    assert_eq!(pids(a), vec![100, 101, 102]);
    assert_eq!(a.active_seconds, 50);
    let p = find(&ss, "profile:/tmp/playwright_chromiumdev_profile-1");
    assert_eq!(p.kind, "Playwright");
    assert_eq!(p.profile, Some("/tmp/playwright_chromiumdev_profile-1".to_string()));
    assert_eq!(p.root_pid, 200);
    assert_eq!(p.agent_pid, None);
    assert_eq!(pids(p), vec![200, 201]);
    assert_eq!(p.active_seconds, 20);
}

#[test]
fn ordinary_browsers_are_not_sessions() {
    let ss = sessions(&machine());
    assert!(ss.iter().all(|s| s.processes.iter().all(|p| p.pid != 300 && p.pid != 1)));
}

#[test]
fn playwright_runner_session() {
    let t = table(vec![
        proc(10, 1, "node", "node /x/node_modules/@playwright/test/cli.js test", 9, 1),
        proc(11, 10, "chrome", "chrome --user-data-dir=/tmp/playwright_chromiumdev_profile-2", 8, 2),
    ]);
    let ss = sessions(&t);
    assert_eq!(ss.len(), 1);
    let s = find(&ss, "playwright:10");
    assert_eq!(s.kind, "Playwright");
    assert_eq!(s.agent_pid, None);
    assert_eq!(s.profile, Some("/tmp/playwright_chromiumdev_profile-2".to_string()));
    assert_eq!(pids(s), vec![10, 11]);
}

#[test]
fn profile_group_climbs_to_the_top_browser() {
    let t = table(vec![
        proc(1, 0, "systemd", "", 0, 0),
        proc(400, 1, "chrome", "chrome", 3, 1),
        proc(401, 400, "chrome", "chrome --user-data-dir=/tmp/playwright-x", 2, 2),
        proc(402, 400, "chrome", "chrome --type=gpu", 1, 3),
    ]);
    let ss = sessions(&t);
    assert_eq!(ss.len(), 1);
    let s = find(&ss, "profile:/tmp/playwright-x");
    assert_eq!(s.root_pid, 400);
    assert_eq!(pids(s), vec![400, 401, 402]);
    assert_eq!(s.active_seconds, 3);
}

#[test]
fn profile_group_with_agent_profile_is_an_agent_session() {
    let t = table(vec![proc(50, 1, "chrome", "chrome --user-data-dir=/tmp/agent-browser-chrome-9", 1, 1)]);
    let ss = sessions(&t);
    let s = find(&ss, "profile:/tmp/agent-browser-chrome-9");
    assert_eq!(s.kind, "Agent browser");
}

#[test]
fn session_ids_are_distinct() {
    let t = table(vec![
        proc(10, 1, "node", "node agent-browser-linux-x64", 0, 1),
        proc(11, 1, "node", "node playwright-core", 0, 2),
        proc(12, 1, "chrome", "chrome --user-data-dir=/tmp/playwright-a", 0, 3),
        proc(13, 1, "chrome", "chrome --user-data-dir=/tmp/playwright-b", 0, 4),
        proc(14, 1, "chrome", "chrome --user-data-dir=/tmp/playwright-a", 0, 5),
    ]);
    let ss = sessions(&t);
    assert_eq!(ss.len(), 4);
    let ids: HashSet<String> = ss.iter().map(|s| s.id.clone()).collect();
    assert_eq!(ids.len(), 4);
    assert_eq!(pids(find(&ss, "profile:/tmp/playwright-a")), vec![12, 14]);
    assert_eq!(find(&ss, "profile:/tmp/playwright-a").root_pid, 12);
}

#[test]
fn try_sessions_refuses_browser_cycles() {
    let t = table(vec![
        proc(7, 8, "chrome", "chrome --user-data-dir=/tmp/playwright-c", 0, 0),
        proc(8, 7, "chrome", "chrome", 0, 0),
    ]);
    assert!(try_sessions(&t).is_none());
    assert!(!walks_end(&t));
    assert!(walks_end(&machine()));
    assert_eq!(try_sessions(&machine()).unwrap().len(), 2);
}

#[test]
fn counts_drivers_and_profiles() {
    let t = machine();
    assert_eq!(process_counts(&t), (1, 2));
    assert_eq!(process_counts(&ProcessTable::new()), (0, 0));
}

#[test]
fn termination_targets_highest_pid_first() {
    let t = machine();
    let ts = termination_targets(&t, "agent:100").unwrap();
    assert_eq!(ts.iter().map(|p| p.pid).collect::<Vec<_>>(), vec![102, 101, 100]);
}

#[test]
fn termination_refuses_unknown_sessions() {
    let t = machine();
    assert_eq!(
        termination_targets(&t, "agent:999").unwrap_err(),
        "Session is no longer a verified agent-browser or Playwright tree."
    );
    assert!(termination_targets(&t, "profile:/home/u/.config").is_err());
}

#[test]
fn every_listed_session_can_be_stopped_by_its_id() {
    let t = machine();
    for s in sessions(&t) {
        let mut expected = pids(&s);
        expected.reverse();
        let ts = termination_targets(&t, &s.id).unwrap();
        assert_eq!(ts.iter().map(|p| p.pid).collect::<Vec<_>>(), expected);
    }
}

#[test]
fn only_surviving_targets_are_killed() {
    let targets = vec![proc(102, 101, "c", "c", 0, 5), proc(101, 100, "c", "c", 0, 6), proc(100, 1, "n", "n", 0, 7)];
    let now = table(vec![proc(102, 101, "c", "c", 0, 5), proc(101, 100, "c", "c", 0, 9)]);
    assert_eq!(still_running(&targets, &now), vec![102]);
    assert_eq!(still_running(&vec![], &now), Vec::<i32>::new());
}

#[test]
fn stop_signals() {
    assert_eq!(stop_signal(false), 15);
    assert_eq!(stop_signal(true), 9);
}
