//! Properties of the library as a whole: what the redacted text shown for a command holds,
//! which processes a session can contain, how a session is found again by its id, and which
//! processes are killed when a session is stopped.
use vstd::prelude::*;
use crate::command::{
    AGENT, AGENT_PROFILE, USER_DATA_DIR_FLAG, carries_secret, marked_profile, profile_of_command,
    redacted, redacted_word, redacted_word_of,
};
use crate::number::decimal;
use crate::process::{ProcessInfo, is_agent, is_playwright};
use crate::session::{
    claimed, group_ids, is_profile_session, is_root_session, is_session_root, lemma_profile_ids_differ,
    lemma_root_and_profile_ids_differ, lemma_root_ids_differ, members_in_order, root_session_id,
    session_body, sessions_of,
};
use crate::terminate::{session_pids, still_there, survivors};
use crate::text::{
    contains, find, is_word, lemma_find, lemma_words_are_words, lemma_words_of_join, lowercase,
    occurs_at, starts_with, trim_char, words,
};
use crate::tree::{lemma_root_in_subtree, subtree};

verus! {

proof fn lemma_redacted_word_is_word(w: Seq<char>)
    requires
        is_word(w),
    ensures
        is_word(redacted_word_of(w)),
{
    reveal_strlit("[url]");
    reveal_strlit("[redacted-argument]");
}

/// Redaction keeps the words of a command line: the text shown splits into as many words as
/// the command, each the redaction of the word at the same place.
pub proof fn law_redaction_keeps_words(s: Seq<char>)
    ensures
        words(redacted(s)) == words(s).map_values(|w: Seq<char>| redacted_word_of(w)),
{
    lemma_words_are_words(s);
    let ws = words(s).map_values(|w: Seq<char>| redacted_word_of(w));
    assert forall|i: int| 0 <= i < ws.len() implies is_word(#[trigger] ws[i]) by {
        assert(is_word(words(s)[i]));
        lemma_redacted_word_is_word(words(s)[i]);
    }
    lemma_words_of_join(ws);
}

/// The text shown for a command holds no URL and no secret argument: each of its words is a
/// placeholder, or a word that neither starts a URL nor carries a secret.
pub proof fn law_redaction_hides_secrets(s: Seq<char>)
    ensures
        forall|i: int| #![trigger words(redacted(s))[i]]
            0 <= i < words(redacted(s)).len() ==> {
                let v = words(redacted(s))[i];
                ||| v == "[url]"@
                ||| v == "[redacted-argument]"@
                ||| !starts_with(v, "http://"@) && !starts_with(v, "https://"@) && !carries_secret(v)
            },
{
    law_redaction_keeps_words(s);
}

/// Looking a session up by its id finds that session's processes: the id of any session the
/// monitor shows names exactly the pids whose processes it lists.
pub proof fn law_session_lookup(t: Map<i32, ProcessInfo>, r: Seq<crate::session::Session>, i: int)
    requires
        sessions_of(t, r),
        0 <= i < r.len(),
    ensures
        session_pids(t, r[i].id@) matches Some(ids) && members_in_order(t, ids, r[i].processes@),
{
    let s = r[i];
    let id = s.id@;
    if is_root_session(t, s.root_pid, s) {
        let k = s.root_pid;
        let k2 = choose|k: i32|
            t.contains_key(k) && crate::session::is_session_root(t[k])
                && crate::session::root_session_id(t, k) == id;
        if k2 != k {
            lemma_root_ids_differ(t, k, k2);
        }
    } else {
        let v = choose|v: Seq<char>| is_profile_session(t, v, s);
        assert forall|k: i32|
            !(t.contains_key(k) && crate::session::is_session_root(t[k])
                && crate::session::root_session_id(t, k) == id) by {
            lemma_root_and_profile_ids_differ(t, k, v);
        }
        let v2 = choose|v: Seq<char>|
            crate::session::has_group(t, v) && crate::session::profile_session_id(v) == id;
        if v2 != v {
            lemma_profile_ids_differ(v, v2);
        }
    }
}

/// A process outside the tree of every driver and runner and outside every profile group's
/// pids belongs to no session, so it is never listed nor stopped: ordinary browser windows
/// are left alone.
pub proof fn law_unrelated_processes_untouched(
    t: Map<i32, ProcessInfo>,
    r: Seq<crate::session::Session>,
    x: i32,
)
    requires
        sessions_of(t, r),
        !claimed(t, x),
        forall|v: Seq<char>| !(#[trigger] group_ids(t, v)).contains(x),
    ensures
        forall|i: int, j: int|
            0 <= i < r.len() && 0 <= j < r[i].processes@.len() ==> (#[trigger] r[i].processes@[j]).pid
                != x,
{
    assert forall|i: int, j: int|
        0 <= i < r.len() && 0 <= j < r[i].processes@.len() implies (#[trigger] r[i].processes@[j]).pid
        != x by {
        let p = r[i].processes@[j];
        if is_root_session(t, r[i].root_pid, r[i]) {
            assert(crate::tree::subtree(t, r[i].root_pid).contains(p.pid));
        } else {
            let v = choose|v: Seq<char>| is_profile_session(t, v, r[i]);
            assert(group_ids(t, v).contains(p.pid));
        }
    }
}

/// After the grace period only processes of the stopped session are killed, and only those
/// still running: each pid killed is a target's, and the table taken after the wait still
/// holds that target with the same start marker.
pub proof fn law_kill_only_surviving_targets(now: Map<i32, ProcessInfo>, targets: Seq<ProcessInfo>)
    ensures
        forall|i: int| 0 <= i < survivors(now, targets).len() ==> exists|j: int|
            0 <= j < targets.len() && targets[j].pid == #[trigger] survivors(now, targets)[i]
                && still_there(now, targets[j]),
    decreases targets.len(),
{
    if targets.len() > 0 {
        let prev = targets.drop_last();
        law_kill_only_surviving_targets(now, prev);
        let rest = survivors(now, prev);
        assert forall|i: int| 0 <= i < survivors(now, targets).len() implies exists|j: int|
            0 <= j < targets.len() && targets[j].pid == #[trigger] survivors(now, targets)[i]
                && still_there(now, targets[j]) by {
            if i < rest.len() {
                assert(survivors(now, targets)[i] == rest[i]);
                let j = choose|j: int|
                    0 <= j < prev.len() && prev[j].pid == #[trigger] rest[i] && still_there(now, prev[j]);
                assert(targets[j] == prev[j]);
            } else {
                assert(targets[targets.len() - 1] == targets.last());
            }
        }
    }
}

/// A session that holds an `agent-browser` driver (a process whose command line names
/// `agent-browser-linux-x64`) is an "Agent browser" session.
pub proof fn law_driver_makes_agent_session(
    t: Map<i32, ProcessInfo>,
    ids: Set<i32>,
    s: crate::session::Session,
    k: i32,
)
    requires
        session_body(t, ids, s),
        ids.contains(k),
        t.contains_key(k),
        contains(t[k].command@, AGENT@),
    ensures
        s.kind@ == "Agent browser"@,
{
    let ps = s.processes@;
    let i = choose|i: int| 0 <= i < ps.len() && #[trigger] ps[i].pid == k;
    assert(ps[i] == t[k]);
}

/// A session whose profile is an `agent-browser` profile is an "Agent browser" session.
pub proof fn law_agent_profile_makes_agent_session(
    t: Map<i32, ProcessInfo>,
    ids: Set<i32>,
    s: crate::session::Session,
)
    requires
        session_body(t, ids, s),
        s.profile matches Some(p) && contains(p@, AGENT_PROFILE@),
    ensures
        s.kind@ == "Agent browser"@,
{
}

/// A session with neither an `agent-browser` profile nor a driver among its processes is a
/// "Playwright" session.
pub proof fn law_other_sessions_are_playwright(
    t: Map<i32, ProcessInfo>,
    ids: Set<i32>,
    s: crate::session::Session,
)
    requires
        session_body(t, ids, s),
        !(s.profile matches Some(p) && contains(p@, AGENT_PROFILE@)),
        forall|k: i32| ids.contains(k) && t.contains_key(k) ==> !contains(
            #[trigger] t[k].command@,
            AGENT@,
        ),
    ensures
        s.kind@ == "Playwright"@,
{
    let ps = s.processes@;
    assert forall|i: int| 0 <= i < ps.len() implies !contains((#[trigger] ps[i]).command@, AGENT@) by {
        assert(ids.contains(ps[i].pid) && t.contains_key(ps[i].pid) && t[ps[i].pid] == ps[i]);
    }
}

/// Among the sessions the monitor shows, every one whose id starts with `agent:` (the session
/// of an `agent-browser` driver) is an "Agent browser" session.
pub proof fn law_agent_ids_are_agent_sessions(
    t: Map<i32, ProcessInfo>,
    r: Seq<crate::session::Session>,
    i: int,
)
    requires
        sessions_of(t, r),
        0 <= i < r.len(),
        starts_with(r[i].id@, "agent:"@),
    ensures
        r[i].kind@ == "Agent browser"@,
{
    reveal_strlit("agent:");
    reveal_strlit("playwright:");
    reveal_strlit("profile:");
    let s = r[i];
    assert(s.id@.subrange(0, 6)[0] == s.id@[0]);
    if is_root_session(t, s.root_pid, s) {
        let k = s.root_pid;
        if !contains(t[k].command@, AGENT@) {
            assert(s.id@[0] == ("playwright:"@ + decimal(k as int))[0]);
            assert(false);
        }
        lemma_root_in_subtree(t, k);
        law_driver_makes_agent_session(t, subtree(t, k), s, k);
    } else {
        let v = choose|v: Seq<char>| is_profile_session(t, v, s);
        assert(s.id@[0] == ("profile:"@ + v)[0]);
    }
}

/// A word that is neither a URL (starting with `http://` or `https://`) nor a secret argument
/// (its lowercase form holding `token=`, `key=` or `password=`) is shown unchanged; a URL is
/// shown as `[url]`, and any other secret argument as `[redacted-argument]`.
pub proof fn law_redaction_of_a_word(w: Seq<char>, lowered: Seq<char>)
    ensures
        !starts_with(w, "http://"@) && !starts_with(w, "https://"@) && !contains(lowered, "token="@)
            && !contains(lowered, "key="@) && !contains(lowered, "password="@) ==> redacted_word(
            w,
            lowered,
        ) == w,
        starts_with(w, "http://"@) || starts_with(w, "https://"@) ==> redacted_word(w, lowered)
            == "[url]"@,
        !starts_with(w, "http://"@) && !starts_with(w, "https://"@) && (contains(lowered, "token="@)
            || contains(lowered, "key="@) || contains(lowered, "password="@)) ==> redacted_word(
            w,
            lowered,
        ) == "[redacted-argument]"@,
{
}

/// In the text shown for a command, each word of the command that is neither a URL nor a secret
/// argument stands unchanged at its place.
pub proof fn law_redaction_keeps_plain_words(s: Seq<char>, i: int)
    requires
        0 <= i < words(s).len(),
        !starts_with(words(s)[i], "http://"@),
        !starts_with(words(s)[i], "https://"@),
        !carries_secret(words(s)[i]),
    ensures
        words(redacted(s))[i] == words(s)[i],
{
    law_redaction_keeps_words(s);
    law_redaction_of_a_word(words(s)[i], lowercase(words(s)[i]));
}

/// A profile directory marks an automation session exactly when it holds the `agent-browser`
/// profile prefix or its lowercase form mentions `playwright`, wherever in the path.
pub proof fn law_marked_profiles(v: Seq<char>, lowered: Seq<char>)
    ensures
        marked_profile(v, lowered) <==> (contains(v, AGENT_PROFILE@) || contains(
            lowered,
            "playwright"@,
        )),
{
}

/// The profile a command line names: when `--user-data-dir=` first occurs at `i` and a word
/// follows it, that word without its double quotes is the profile if it holds the
/// `agent-browser` prefix or mentions `playwright` in any case, and there is none otherwise.
pub proof fn law_profile_named_by_flag(s: Seq<char>, i: int)
    requires
        occurs_at(s, USER_DATA_DIR_FLAG@, i),
        forall|j: int| 0 <= j < i ==> !occurs_at(s, USER_DATA_DIR_FLAG@, j),
        words(s.skip(i + USER_DATA_DIR_FLAG@.len())).len() > 0,
    ensures
        ({
            let v = trim_char(words(s.skip(i + USER_DATA_DIR_FLAG@.len()))[0], '"');
            &&& contains(v, AGENT_PROFILE@) || contains(lowercase(v), "playwright"@) ==> profile_of_command(s) == Some(v)
            &&& !contains(v, AGENT_PROFILE@) && !contains(lowercase(v), "playwright"@) ==> profile_of_command(s) is None
        }),
{
    lemma_find(s, USER_DATA_DIR_FLAG@);
    if find(s, USER_DATA_DIR_FLAG@) is None {
        assert(contains(s, USER_DATA_DIR_FLAG@));
    }
    let j = find(s, USER_DATA_DIR_FLAG@)->0;
    if j < i {
        assert(!occurs_at(s, USER_DATA_DIR_FLAG@, j));
    }
    if i < j {
        assert(!occurs_at(s, USER_DATA_DIR_FLAG@, i));
    }
    assert(j == i);
}

/// A Playwright runner is exactly a process whose lowercase command line mentions
/// `playwright-core`, `@playwright/test` or `playwright/cli`; such a process, like an
/// `agent-browser` driver, starts a session of its own.
pub proof fn law_playwright_runners(p: ProcessInfo)
    ensures
        is_playwright(p) <==> (contains(lowercase(p.command@), "playwright-core"@) || contains(
            lowercase(p.command@),
            "@playwright/test"@,
        ) || contains(lowercase(p.command@), "playwright/cli"@)),
        is_agent(p) <==> contains(p.command@, AGENT@),
        contains(lowercase(p.command@), "playwright-core"@) || contains(
            lowercase(p.command@),
            "@playwright/test"@,
        ) || contains(lowercase(p.command@), "playwright/cli"@) || contains(p.command@, AGENT@)
            ==> is_session_root(p),
{
}

/// Every Playwright runner and every `agent-browser` driver in the table has a session of its
/// own among those the monitor shows, rooted at it.
pub proof fn law_runners_and_drivers_get_sessions(
    t: Map<i32, ProcessInfo>,
    r: Seq<crate::session::Session>,
    k: i32,
)
    requires
        sessions_of(t, r),
        t.contains_key(k),
        contains(lowercase(t[k].command@), "playwright-core"@) || contains(
            lowercase(t[k].command@),
            "@playwright/test"@,
        ) || contains(lowercase(t[k].command@), "playwright/cli"@) || contains(t[k].command@, AGENT@),
    ensures
        exists|i: int| 0 <= i < r.len() && (#[trigger] r[i]).root_pid == k && r[i].id@ == root_session_id(t, k),
{
    law_playwright_runners(t[k]);
    let i = choose|i: int| 0 <= i < r.len() && is_root_session(t, k, #[trigger] r[i]);
    assert(r[i].root_pid == k && r[i].id@ == root_session_id(t, k));
}

} // verus!
