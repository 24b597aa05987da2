//! The implicit graph that a successor function describes, as a mathematical
//! model: single steps, walks, reachability, and what a search may assume of
//! the functions it is handed.

use vstd::prelude::*;

verus! {

/// One step: `to` is among the nodes that `successors` yields for `from`.
pub open spec fn step<N, FN: Fn(&N) -> Vec<N>>(successors: FN, from: N, to: N) -> bool {
    exists|out: Vec<N>| #[trigger] successors.ensures((&from,), out) && out@.contains(to)
}

/// `path` is a walk from `from` to `to`: it is not empty, starts at `from`,
/// ends at `to`, and each node is followed by one of its successors.
pub open spec fn walk<N, FN: Fn(&N) -> Vec<N>>(successors: FN, from: N, to: N, path: Seq<N>) -> bool {
    &&& path.len() >= 1
    &&& path[0] == from
    &&& path[path.len() - 1] == to
    &&& forall|i: int| 0 <= i < path.len() - 1 ==> step(successors, #[trigger] path[i], path[i + 1])
}

/// `to` is reached from `from` by zero or more steps.
pub open spec fn reachable<N, FN: Fn(&N) -> Vec<N>>(successors: FN, from: N, to: N) -> bool {
    exists|path: Seq<N>| walk(successors, from, to, path)
}

/// `to` is reached from `from` by one or more steps.
pub open spec fn reachable_beyond<N, FN: Fn(&N) -> Vec<N>>(successors: FN, from: N, to: N) -> bool {
    exists|mid: N| step(successors, from, mid) && reachable(successors, mid, to)
}

/// The nodes that are reached from `from` by zero or more steps.
pub open spec fn reach_set<N, FN: Fn(&N) -> Vec<N>>(successors: FN, from: N) -> Set<N> {
    Set::new(|to: N| reachable(successors, from, to))
}

/// `inside` holds, with each of its nodes, all the successors of that node.
pub open spec fn closed_under_steps<N, FN: Fn(&N) -> Vec<N>>(successors: FN, inside: Set<N>) -> bool {
    forall|node: N, next: N|
        inside.contains(node) && #[trigger] step(successors, node, next) ==> inside.contains(next)
}

/// The goal predicate says yes to `node`.
pub open spec fn accepts<N, FS: Fn(&N) -> bool>(success: FS, node: N) -> bool {
    success.ensures((&node,), true)
}

/// Some node accepted by `success` is reached from `start` by zero or more steps.
pub open spec fn reaches_goal<N, FN: Fn(&N) -> Vec<N>, FS: Fn(&N) -> bool>(
    successors: FN,
    success: FS,
    start: N,
) -> bool {
    exists|goal: N| reachable(successors, start, goal) && accepts(success, goal)
}

/// Some node accepted by `success` is reached from `start` by one or more steps.
pub open spec fn reaches_goal_beyond<N, FN: Fn(&N) -> Vec<N>, FS: Fn(&N) -> bool>(
    successors: FN,
    success: FS,
    start: N,
) -> bool {
    exists|goal: N| reachable_beyond(successors, start, goal) && accepts(success, goal)
}

/// The successor function may be called on `node`, and is deterministic there
/// up to order and repetition: whatever it returns holds every successor of `node`.
pub open spec fn expandable<N, FN: Fn(&N) -> Vec<N>>(successors: FN, node: N) -> bool {
    &&& successors.requires((&node,))
    &&& forall|out: Vec<N>, to: N|
        #[trigger] successors.ensures((&node,), out) && #[trigger] step(successors, node, to)
            ==> out@.contains(to)
}

/// The goal predicate may be called on `node`, and is deterministic there.
pub open spec fn decidable<N, FS: Fn(&N) -> bool>(success: FS, node: N) -> bool {
    &&& success.requires((&node,))
    &&& !(success.ensures((&node,), true) && success.ensures((&node,), false))
}

/// What a search from `start` asks of the graph: finitely many nodes are
/// reached from `start`, each of them can be expanded, and each node that is
/// reached by at least one step can be tested against the goal.
pub open spec fn searchable<N, FN: Fn(&N) -> Vec<N>, FS: Fn(&N) -> bool>(
    successors: FN,
    success: FS,
    start: N,
) -> bool {
    &&& reach_set(successors, start).finite()
    &&& forall|node: N| #[trigger] reachable(successors, start, node) ==> expandable(successors, node)
    &&& forall|node: N| #[trigger] reachable_beyond(successors, start, node) ==> decidable(success, node)
}

/// Every node reaches itself, by the walk that holds it alone.
pub proof fn lemma_reachable_self<N, FN: Fn(&N) -> Vec<N>>(successors: FN, node: N)
    ensures
        reachable(successors, node, node),
{
    assert(walk(successors, node, node, seq![node]));
}

/// A step followed by a walk is a walk.
pub proof fn lemma_reachable_after_step<N, FN: Fn(&N) -> Vec<N>>(successors: FN, from: N, mid: N, to: N)
    requires
        step(successors, from, mid),
        reachable(successors, mid, to),
    ensures
        reachable(successors, from, to),
        reachable_beyond(successors, from, to),
{
    let tail = choose|path: Seq<N>| walk(successors, mid, to, path);
    let path = seq![from] + tail;
    assert forall|i: int| 0 <= i < path.len() - 1 implies step(successors, #[trigger] path[i], path[i + 1]) by {
        if i > 0 {
            assert(path[i] == tail[i - 1]);
            assert(path[i + 1] == tail[i]);
        }
    }
    assert(walk(successors, from, to, path));
}

/// A walk of zero or more steps either stays where it is or starts with a step.
pub proof fn lemma_reachable_cases<N, FN: Fn(&N) -> Vec<N>>(successors: FN, from: N, to: N)
    requires
        reachable(successors, from, to),
    ensures
        from == to || reachable_beyond(successors, from, to),
{
    let path = choose|path: Seq<N>| walk(successors, from, to, path);
    if path.len() >= 2 {
        let tail = path.subrange(1, path.len() as int);
        assert forall|i: int| 0 <= i < tail.len() - 1 implies step(successors, #[trigger] tail[i], tail[i + 1]) by {
            assert(tail[i] == path[i + 1]);
            assert(tail[i + 1] == path[i + 2]);
        }
        assert(walk(successors, path[1], to, tail));
        assert(step(successors, path[0], path[1]));
    }
}

/// A walk of one or more steps is a walk of zero or more.
pub proof fn lemma_reachable_beyond_is_reachable<N, FN: Fn(&N) -> Vec<N>>(
    successors: FN,
    from: N,
    to: N,
)
    requires
        reachable_beyond(successors, from, to),
    ensures
        reachable(successors, from, to),
{
    let mid = choose|mid: N| step(successors, from, mid) && reachable(successors, mid, to);
    lemma_reachable_after_step(successors, from, mid, to);
}

/// A goal at zero or more steps is the start itself or a goal at one or more.
pub proof fn lemma_reaches_goal_cases<N, FN: Fn(&N) -> Vec<N>, FS: Fn(&N) -> bool>(
    successors: FN,
    success: FS,
    start: N,
)
    ensures
        reaches_goal(successors, success, start) == (accepts(success, start) || reaches_goal_beyond(
            successors,
            success,
            start,
        )),
{
    if reaches_goal(successors, success, start) {
        let goal = choose|goal: N| reachable(successors, start, goal) && accepts(success, goal);
        lemma_reachable_cases(successors, start, goal);
    }
    if accepts(success, start) {
        lemma_reachable_self(successors, start);
    }
    if reaches_goal_beyond(successors, success, start) {
        let goal = choose|goal: N|
            reachable_beyond(successors, start, goal) && accepts(success, goal);
        lemma_reachable_beyond_is_reachable(successors, start, goal);
    }
}

/// What holds of a search from a node holds of a search from each of its
/// successors.
pub proof fn lemma_searchable_after_step<N, FN: Fn(&N) -> Vec<N>, FS: Fn(&N) -> bool>(
    successors: FN,
    success: FS,
    from: N,
    to: N,
)
    requires
        searchable(successors, success, from),
        step(successors, from, to),
    ensures
        searchable(successors, success, to),
        decidable(success, to),
{
    assert forall|node: N| #[trigger] reachable(successors, to, node) implies expandable(
        successors,
        node,
    ) && reach_set(successors, from).contains(node) by {
        lemma_reachable_after_step(successors, from, to, node);
    }
    assert forall|node: N| #[trigger] reachable_beyond(successors, to, node) implies decidable(
        success,
        node,
    ) by {
        lemma_reachable_beyond_is_reachable(successors, to, node);
        lemma_reachable_after_step(successors, from, to, node);
    }
    assert(reach_set(successors, to).subset_of(reach_set(successors, from)));
    vstd::set_lib::lemma_set_subset_finite(reach_set(successors, from), reach_set(successors, to));
    lemma_reachable_self(successors, to);
    lemma_reachable_after_step(successors, from, to, to);
}

/// Entering a node leaves fewer nodes to enter: the nodes that a successor
/// reaches and that are not yet entered are fewer than those that the node
/// itself reached before it was entered.
pub proof fn lemma_unvisited_shrinks<N, FN: Fn(&N) -> Vec<N>>(
    successors: FN,
    from: N,
    to: N,
    before: Set<N>,
    now: Set<N>,
)
    requires
        reach_set(successors, from).finite(),
        step(successors, from, to),
        !before.contains(from),
        before.insert(from).subset_of(now),
    ensures
        reach_set(successors, to).difference(now).len() < reach_set(successors, from).difference(
            before,
        ).len(),
{
    let open_before = reach_set(successors, from).difference(before);
    let open_now = reach_set(successors, to).difference(now);
    lemma_reachable_self(successors, from);
    assert(open_before.contains(from));
    assert forall|node: N| open_now.contains(node) implies open_before.remove(from).contains(
        node,
    ) by {
        lemma_reachable_after_step(successors, from, to, node);
    }
    assert(open_now.subset_of(open_before.remove(from)));
    vstd::set_lib::lemma_len_subset(open_now, open_before.remove(from));
}

/// A walk that starts in a set closed under steps stays in it.
pub proof fn lemma_walk_stays_inside<N, FN: Fn(&N) -> Vec<N>>(
    successors: FN,
    inside: Set<N>,
    path: Seq<N>,
    upto: int,
)
    requires
        0 <= upto < path.len(),
        forall|i: int| 0 <= i < path.len() - 1 ==> step(successors, #[trigger] path[i], path[i + 1]),
        inside.contains(path[0]),
        closed_under_steps(successors, inside),
    ensures
        inside.contains(path[upto]),
    decreases upto,
{
    if upto > 0 {
        lemma_walk_stays_inside(successors, inside, path, upto - 1);
        assert(step(successors, path[upto - 1], path[upto - 1 + 1]));
    }
}

/// A set closed under steps holds every node reached from one of its nodes.
pub proof fn lemma_reach_set_inside<N, FN: Fn(&N) -> Vec<N>>(
    successors: FN,
    inside: Set<N>,
    start: N,
)
    requires
        inside.contains(start),
        closed_under_steps(successors, inside),
    ensures
        reach_set(successors, start).subset_of(inside),
{
    assert forall|node: N| reachable(successors, start, node) implies inside.contains(node) by {
        let path = choose|path: Seq<N>| walk(successors, start, node, path);
        lemma_walk_stays_inside(successors, inside, path, path.len() - 1);
    }
}

/// A set of nodes that holds `start` and, with each node, all its successors,
/// none of which is accepted, shows that no goal lies beyond `start`.
pub proof fn lemma_closed_set_holds_no_goal<N, FN: Fn(&N) -> Vec<N>, FS: Fn(&N) -> bool>(
    successors: FN,
    success: FS,
    start: N,
    closed: Set<N>,
)
    requires
        closed.contains(start),
        forall|node: N, next: N|
            closed.contains(node) && #[trigger] step(successors, node, next) ==> closed.contains(
                next,
            ) && !accepts(success, next),
    ensures
        !reaches_goal_beyond(successors, success, start),
{
    assert forall|goal: N| reachable_beyond(successors, start, goal) implies !accepts(
        success,
        goal,
    ) by {
        let mid = choose|mid: N| step(successors, start, mid) && reachable(successors, mid, goal);
        let path = choose|path: Seq<N>| walk(successors, mid, goal, path);
        if path.len() >= 2 {
            let last = path.len() - 2;
            lemma_walk_stays_inside(successors, closed, path, last);
            assert(step(successors, path[last], path[last + 1]));
        }
    }
}

} // verus!
