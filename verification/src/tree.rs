//! Process trees: the set of processes that descend from a given process.
use vstd::prelude::*;
use std::collections::HashSet;
use crate::process::{ProcessInfo, ProcessTable, browser, is_browser, keys_are_pids};

verus! {

broadcast use vstd::std_specs::hash::group_hash_axioms;

/// Every process of `t` whose parent is in `s` is itself in `s`.
pub open spec fn closed_under_children(t: Map<i32, ProcessInfo>, s: Set<i32>) -> bool {
    forall|k: i32| #[trigger] t.contains_key(k) && s.contains(t[k].ppid) ==> s.contains(t[k].pid)
}

/// `x` is `root` or descends from it: it lies in every set that holds `root` and is closed
/// under taking children.
pub open spec fn in_subtree(t: Map<i32, ProcessInfo>, root: i32, x: i32) -> bool {
    forall|s: Set<i32>| #[trigger] s.contains(root) && closed_under_children(t, s) ==> s.contains(x)
}

/// `root` and every process that descends from it in `t` (following parent pids).
pub open spec fn subtree(t: Map<i32, ProcessInfo>, root: i32) -> Set<i32> {
    Set::new(|x: i32| in_subtree(t, root, x))
}

/// A child of a member of the tree is a member.
pub proof fn lemma_child_in_subtree(t: Map<i32, ProcessInfo>, root: i32, x: i32, k: i32)
    requires
        in_subtree(t, root, x),
        t.contains_key(k),
        t[k].ppid == x,
    ensures
        in_subtree(t, root, t[k].pid),
{
    assert forall|s: Set<i32>| #[trigger]
        s.contains(root) && closed_under_children(t, s) implies s.contains(t[k].pid) by {
        assert(s.contains(x));
    }
}

/// The root is a member of its tree.
pub proof fn lemma_root_in_subtree(t: Map<i32, ProcessInfo>, root: i32)
    ensures
        subtree(t, root).contains(root),
{
}

/// The tree is the least set that holds its root and is closed under taking children.
pub proof fn lemma_subtree_least(t: Map<i32, ProcessInfo>, root: i32, s: Set<i32>)
    requires
        s.contains(root),
        closed_under_children(t, s),
    ensures
        subtree(t, root).subset_of(s),
{
}

/// `root` and every process that descends from it, found by walking down from `root`.
pub fn descendants(root: i32, all: &ProcessTable) -> (r: HashSet<i32>)
    ensures
        r@ == subtree(all@, root),
{
    let links = all.links();
    let ghost t = all@;
    let ghost universe = t.dom().insert(root);
    let mut seen: HashSet<i32> = HashSet::new();
    seen.insert(root);
    let mut queue: Vec<i32> = Vec::new();
    queue.push(root);
    proof {
        vstd::set_lib::lemma_set_insert_finite_iff(t.dom(), root);
        assert(queue@[0] == root);
        assert(seen@ =~= Set::<i32>::empty().insert(root));
    }
    loop
        invariant
            keys_are_pids(t),
            t == all@,
            universe == t.dom().insert(root),
            universe.finite(),
            forall|i: int| #![trigger links@[i]]
                0 <= i < links@.len() ==> t.contains_key(links@[i].0) && t[links@[i].0].ppid
                    == links@[i].1,
            forall|k: i32| #[trigger] t.contains_key(k) ==> exists|i: int|
                0 <= i < links@.len() && #[trigger] links@[i].0 == k,
            seen@.contains(root),
            seen@.subset_of(universe),
            seen@.finite(),
            forall|x: i32| #[trigger] seen@.contains(x) ==> in_subtree(t, root, x),
            forall|i: int| 0 <= i < queue@.len() ==> seen@.contains(#[trigger] queue@[i]),
            queue@.no_duplicates(),
            forall|x: i32|
                #[trigger] seen@.contains(x) && !queue@.contains(x) ==> forall|i: int|
                    0 <= i < links@.len() && #[trigger] links@[i].1 == x ==> seen@.contains(
                        links@[i].0,
                    ),
        ensures
            queue@.len() == 0,
        decreases universe.len() - seen@.len(), queue@.len(),
    {
        proof {
            vstd::set_lib::lemma_len_subset(seen@, universe);
        }
        let ghost qouter = queue@;
        let x = match queue.pop() {
            None => break,
            Some(x) => x,
        };
        let ghost seen0 = seen@;
        let ghost queue0 = queue@;
        proof {
            assert(!queue@.contains(x)) by {
                if queue@.contains(x) {
                    let i = choose|i: int| 0 <= i < queue@.len() && queue@[i] == x;
                    assert(queue0.push(x)[i] == queue0.push(x)[queue0.len() as int]);
                }
            }
            assert(queue0.push(x) =~= qouter);
            assert forall|y: i32|
                #[trigger] seen0.contains(y) && !queue0.contains(y) && y != x implies !qouter.contains(y) by {
                if qouter.contains(y) {
                    let i = choose|i: int| 0 <= i < qouter.len() && qouter[i] == y;
                    assert(queue0[i] == y);
                }
            }
        }
        let mut j: usize = 0;
        while j < links.len()
            invariant
                keys_are_pids(t),
                universe == t.dom().insert(root),
                universe.finite(),
                forall|i: int| #![trigger links@[i]]
                    0 <= i < links@.len() ==> t.contains_key(links@[i].0) && t[links@[i].0].ppid
                        == links@[i].1,
                j <= links.len(),
                seen0.subset_of(seen@),
                seen@.contains(x),
                seen@.contains(root),
                seen@.subset_of(universe),
                seen@.finite(),
                forall|y: i32| #[trigger] seen@.contains(y) ==> in_subtree(t, root, y),
                forall|i: int| 0 <= i < queue@.len() ==> seen@.contains(#[trigger] queue@[i]),
                queue@.no_duplicates(),
                !queue@.contains(x),
                queue@.len() - queue0.len() == seen@.len() - seen0.len(),
                queue0.len() <= queue@.len(),
                forall|i: int| 0 <= i < queue0.len() ==> queue@[i] == queue0[i],
                forall|y: i32| #[trigger]
                    seen@.contains(y) && !queue0.contains(y) && !seen0.contains(y)
                        ==> queue@.contains(y),
                forall|y: i32|
                    #[trigger] seen0.contains(y) && !queue0.contains(y) && y != x ==> forall|i: int|
                        0 <= i < links@.len() && #[trigger] links@[i].1 == y ==> seen0.contains(
                            links@[i].0,
                        ),
                forall|i: int|
                    0 <= i < j && #[trigger] links@[i].1 == x ==> seen@.contains(links@[i].0),
            decreases links.len() - j,
        {
            let (child, parent) = links[j];
            if parent == x {
                proof {
                    lemma_child_in_subtree(t, root, x, child);
                }
                if seen.insert(child) {
                    let ghost q = queue@;
                    queue.push(child);
                    proof {
                        assert(!q.contains(child));
                        assert forall|a: int, b: int|
                            0 <= a < queue@.len() && 0 <= b < queue@.len() && a != b implies queue@[a]
                            != queue@[b] by {
                            if a < q.len() && b < q.len() {
                                assert(q[a] != q[b]);
                            } else if a < q.len() {
                                assert(q.contains(q[a]));
                            } else if b < q.len() {
                                assert(q.contains(q[b]));
                            }
                        }
                        assert forall|y: i32| #[trigger]
                            seen@.contains(y) && !queue0.contains(y) && !seen0.contains(y)
                                implies queue@.contains(y) by {
                            if y != child {
                                assert(q.contains(y));
                                let i = choose|i: int| 0 <= i < q.len() && q[i] == y;
                                assert(queue@[i] == y);
                            } else {
                                assert(queue@[q.len() as int] == y);
                            }
                        }
                    }
                }
            }
            j = j + 1;
        }
        proof {
            assert forall|y: i32|
                #[trigger] seen@.contains(y) && !queue@.contains(y) implies forall|i: int|
                    0 <= i < links@.len() && #[trigger] links@[i].1 == y ==> seen@.contains(
                        links@[i].0,
                    ) by {
                if y != x {
                    if !seen0.contains(y) {
                    } else if queue0.contains(y) {
                        let i = choose|i: int| 0 <= i < queue0.len() && queue0[i] == y;
                        assert(queue@[i] == y);
                    }
                }
            }
            if seen@.len() == seen0.len() {
                assert(queue@.len() == queue0.len());
            }
            vstd::set_lib::lemma_len_subset(seen0, seen@);
            vstd::set_lib::lemma_len_subset(seen@, universe);
        }
    }
    proof {
        assert(closed_under_children(t, seen@)) by {
            assert forall|k: i32| #[trigger]
                t.contains_key(k) && seen@.contains(t[k].ppid) implies seen@.contains(t[k].pid) by {
                let i = choose|i: int| 0 <= i < links@.len() && #[trigger] links@[i].0 == k;
                assert(links@[i].1 == t[k].ppid);
            }
        }
        assert(seen@ =~= subtree(t, root));
    }
    seen
}

/// The browser that `a`'s parent is, when `a` is in `t` and its parent is a browser in `t`.
pub open spec fn climb_step(t: Map<i32, ProcessInfo>, a: i32) -> Option<i32> {
    if t.contains_key(a) && t.contains_key(t[a].ppid) && is_browser(t[t[a].ppid]) {
        Some(t[t[a].ppid].pid)
    } else {
        None
    }
}

/// Where `n` steps up through browser parents lead from `a`, staying put once there is no
/// browser parent.
pub open spec fn climb(t: Map<i32, ProcessInfo>, a: i32, n: nat) -> i32
    decreases n,
{
    if n == 0 {
        a
    } else {
        let b = climb(t, a, (n - 1) as nat);
        match climb_step(t, b) {
            Some(c) => c,
            None => b,
        }
    }
}

/// Climbing from `a` reaches a process without a browser parent.
pub open spec fn climb_ends(t: Map<i32, ProcessInfo>, a: i32) -> bool {
    exists|n: nat| #[trigger] climb_step(t, climb(t, a, n)) is None
}

/// The highest browser reached from `a` by walking up through browser parents.
pub open spec fn top(t: Map<i32, ProcessInfo>, a: i32) -> i32 {
    climb(t, a, choose|n: nat| #[trigger] climb_step(t, climb(t, a, n)) is None)
}

/// Once the climb stops, it stays where it stopped.
pub proof fn lemma_climb_stays(t: Map<i32, ProcessInfo>, a: i32, n: nat, m: nat)
    requires
        climb_step(t, climb(t, a, n)) is None,
        n <= m,
    ensures
        climb(t, a, m) == climb(t, a, n),
    decreases m,
{
    if n < m {
        lemma_climb_stays(t, a, n, (m - 1) as nat);
    }
}

/// Walks up from `id` through parents that are browsers, to the highest one.
pub fn top_of(all: &ProcessTable, id: i32) -> (r: i32)
    requires
        climb_ends(all@, id),
    ensures
        r == top(all@, id),
{
    let ghost t = all@;
    let ghost bound: nat = choose|n: nat| #[trigger] climb_step(t, climb(t, id, n)) is None;
    let ghost mut steps: nat = 0;
    let mut a = id;
    loop
        invariant
            t == all@,
            climb_step(t, climb(t, id, bound)) is None,
            a == climb(t, id, steps),
            steps <= bound,
        ensures
            a == climb(t, id, steps),
            climb_step(t, a) is None,
            steps <= bound,
        decreases bound - steps,
    {
        proof {
            if bound <= steps {
                lemma_climb_stays(t, id, bound, steps);
            }
        }
        let parent = match all.get(a) {
            None => break,
            Some(p) => match all.get(p.ppid) {
                None => break,
                Some(q) => q,
            },
        };
        if !browser(parent) {
            break;
        }
        proof {
            if steps == bound {
                assert(climb_step(t, a) is None);
            }
            steps = steps + 1;
        }
        a = parent.pid;
    }
    proof {
        lemma_climb_stays(t, id, steps, bound);
    }
    a
}

/// One step up from `a`: its parent, when `a` is in the table and its parent is a browser in
/// the table.
pub fn step_up(all: &ProcessTable, a: i32) -> (r: Option<i32>)
    ensures
        r == climb_step(all@, a),
{
    match all.get(a) {
        None => None,
        Some(p) => match all.get(p.ppid) {
            None => None,
            Some(q) => if browser(q) {
                Some(q.pid)
            } else {
                None
            },
        },
    }
}

/// Climbing is determined by where it is: two climbs from the same place go the same way.
pub proof fn lemma_climb_shift(t: Map<i32, ProcessInfo>, a: i32, p: nat, q: nat, d: nat)
    requires
        climb(t, a, p) == climb(t, a, q),
    ensures
        climb(t, a, p + d) == climb(t, a, q + d),
    decreases d,
{
    if d > 0 {
        lemma_climb_shift(t, a, p, q, (d - 1) as nat);
        assert(climb(t, a, p + d) == match climb_step(t, climb(t, a, (p + d - 1) as nat)) {
            Some(c) => c,
            None => climb(t, a, (p + d - 1) as nat),
        });
    }
}

proof fn lemma_climb_repeats_forever(t: Map<i32, ProcessInfo>, a: i32, p: nat, q: nat, n: nat, m: nat)
    requires
        p < q <= n,
        climb(t, a, p) == climb(t, a, q),
        forall|i: nat| i <= n ==> #[trigger] climb_step(t, climb(t, a, i)) is Some,
    ensures
        climb_step(t, climb(t, a, m)) is Some,
    decreases m,
{
    if m > n {
        let d = (m - q) as nat;
        lemma_climb_shift(t, a, p, q, d);
        lemma_climb_repeats_forever(t, a, p, q, n, p + d);
    }
}

/// A climb that goes on for more steps than the table has processes never stops: it has gone
/// round a cycle of browsers.
pub proof fn lemma_climb_cycle(t: Map<i32, ProcessInfo>, a: i32, n: nat)
    requires
        keys_are_pids(t),
        t.dom().finite(),
        t.dom().len() == n,
        forall|i: nat| i <= n ==> #[trigger] climb_step(t, climb(t, a, i)) is Some,
    ensures
        !climb_ends(t, a),
{
    let s = Seq::new(n + 1, |i: int| climb(t, a, i as nat));
    assert forall|x: i32| s.to_set().contains(x) implies t.dom().contains(x) by {
        let i = choose|i: int| 0 <= i < s.len() && s[i] == x;
        assert(climb_step(t, climb(t, a, i as nat)) is Some);
    }
    vstd::set_lib::lemma_len_subset(s.to_set(), t.dom());
    if s.no_duplicates() {
        s.unique_seq_to_set();
        assert(false);
    }
    let (i, j) = choose|i: int, j: int| 0 <= i < s.len() && 0 <= j < s.len() && i != j && s[i] == s[j];
    let (p, q) = if i < j { (i as nat, j as nat) } else { (j as nat, i as nat) };
    assert(climb(t, a, p) == climb(t, a, q));
    assert forall|m: nat| #[trigger] climb_step(t, climb(t, a, m)) is Some by {
        lemma_climb_repeats_forever(t, a, p, q, n, m);
    }
}

/// Whether climbing from `id` through browser parents reaches a process without a browser
/// parent (it does not only when the browsers above `id` form a cycle).
pub fn climb_stops(all: &ProcessTable, id: i32) -> (b: bool)
    ensures
        b == climb_ends(all@, id),
{
    let n = all.len();
    let ghost t = all@;
    let mut a = id;
    let mut steps: usize = 0;
    loop
        invariant
            t == all@,
            keys_are_pids(t),
            t.dom().finite(),
            n == t.dom().len(),
            steps <= n,
            a == climb(t, id, steps as nat),
            forall|i: nat| i < steps ==> #[trigger] climb_step(t, climb(t, id, i)) is Some,
        decreases n - steps,
    {
        match step_up(all, a) {
            None => {
                return true;
            },
            Some(b) => {
                if steps == n {
                    proof {
                        lemma_climb_cycle(t, id, n as nat);
                    }
                    return false;
                }
                a = b;
                steps = steps + 1;
            },
        }
    }
}

} // verus!
