//! Laws of the search, stated over the model of `graph` and proved from it.

use std::hash::Hash;
use vstd::prelude::*;
use vstd::std_specs::hash::obeys_key_model;
use crate::graph::{
    accepts, closed_under_steps, decidable, expandable, lemma_reach_set_inside,
    lemma_reachable_beyond_is_reachable, lemma_reachable_self, reach_set, reachable,
    reachable_beyond, reaches_goal, reaches_goal_beyond, searchable, step, walk,
};
use crate::search::{can_reach, can_reach_exclusive};

verus! {

/// Whatever `first` may return for a node, `second` may return the same nodes
/// in some other order.
pub open spec fn yields_reordered<N, F: Fn(&N) -> Vec<N>, G: Fn(&N) -> Vec<N>>(
    first: F,
    second: G,
) -> bool {
    forall|node: N, out: Vec<N>| #[trigger]
        first.ensures((&node,), out) ==> exists|other: Vec<N>| #[trigger]
            second.ensures((&node,), other) && out@.to_multiset() == other@.to_multiset()
}

/// Direct success: where the start node is accepted, a goal is reached, and
/// the search may be called and answers `true`, whatever the successor
/// function is.
pub proof fn law_direct_success<N, FN, FS>(successors: FN, success: FS, start: N, found: bool)
    where
        N: Eq + Hash,
        FN: Fn(&N) -> Vec<N>,
        FS: Fn(&N) -> bool,
    requires
        obeys_key_model::<N>(),
        decidable(success, start),
        accepts(success, start),
    ensures
        reaches_goal(successors, success, start),
        call_requires(can_reach::<N, FN, FS>, (start, successors, success)),
        call_ensures(can_reach::<N, FN, FS>, (start, successors, success), found) ==> found,
{
    lemma_reachable_self(successors, start);
}

/// No goal, no success: where no node reached from the start is accepted, no
/// goal is reached, neither counting the start nor beyond it, and both
/// searches answer `false`.
pub proof fn law_no_goal<N, FN, FS>(successors: FN, success: FS, start: N, found: bool)
    where
        N: Eq + Hash,
        FN: Fn(&N) -> Vec<N>,
        FS: Fn(&N) -> bool,
    requires
        forall|node: N| reachable(successors, start, node) ==> !accepts(success, node),
    ensures
        !reaches_goal(successors, success, start),
        !reaches_goal_beyond(successors, success, start),
        call_ensures(can_reach::<N, FN, FS>, (start, successors, success), found) ==> !found,
        call_ensures(can_reach_exclusive::<N, FN, FS>, (start, successors, success), found)
            ==> !found,
{
    assert forall|goal: N| reachable_beyond(successors, start, goal) implies !accepts(
        success,
        goal,
    ) by {
        lemma_reachable_beyond_is_reachable(successors, start, goal);
    }
}

/// Cycle safety: a graph may lead back to nodes already met. Where its steps
/// stay within a finite set of nodes, on each of which both functions can be
/// called and are deterministic, it can be searched from every node of that
/// set: the search ends, with the answer that its contract gives.
pub proof fn law_bounded_graph_is_searchable<N, FN, FS>(
    successors: FN,
    success: FS,
    bound: Set<N>,
    start: N,
)
    where
        N: Eq + Hash,
        FN: Fn(&N) -> Vec<N>,
        FS: Fn(&N) -> bool,
    requires
        obeys_key_model::<N>(),
        bound.finite(),
        bound.contains(start),
        closed_under_steps(successors, bound),
        forall|node: N| bound.contains(node) ==> expandable(successors, node),
        forall|node: N| bound.contains(node) ==> decidable(success, node),
    ensures
        searchable(successors, success, start),
        call_requires(can_reach::<N, FN, FS>, (start, successors, success)),
        call_requires(can_reach_exclusive::<N, FN, FS>, (start, successors, success)),
{
    lemma_reach_set_inside(successors, bound, start);
    vstd::set_lib::lemma_set_subset_finite(bound, reach_set(successors, start));
    assert forall|node: N| #[trigger] reachable(successors, start, node) implies expandable(
        successors,
        node,
    ) by {
        assert(reach_set(successors, start).contains(node));
    }
    assert forall|node: N| #[trigger] reachable_beyond(successors, start, node) implies decidable(
        success,
        node,
    ) by {
        lemma_reachable_beyond_is_reachable(successors, start, node);
        assert(reach_set(successors, start).contains(node));
    }
}

/// Order independence: two successor functions that yield the same nodes for
/// each node, in whatever order, reach the same goals, and a search with the
/// one answers as a search with the other.
pub proof fn law_order_independent<N, F, G, FS>(
    first: F,
    second: G,
    success: FS,
    start: N,
    one: bool,
    other: bool,
)
    where
        N: Eq + Hash,
        F: Fn(&N) -> Vec<N>,
        G: Fn(&N) -> Vec<N>,
        FS: Fn(&N) -> bool,
    requires
        yields_reordered(first, second),
        yields_reordered(second, first),
    ensures
        reaches_goal(first, success, start) == reaches_goal(second, success, start),
        reaches_goal_beyond(first, success, start) == reaches_goal_beyond(second, success, start),
        call_ensures(can_reach::<N, F, FS>, (start, first, success), one) && call_ensures(
            can_reach::<N, G, FS>,
            (start, second, success),
            other,
        ) ==> one == other,
        call_ensures(can_reach_exclusive::<N, F, FS>, (start, first, success), one) && call_ensures(
            can_reach_exclusive::<N, G, FS>,
            (start, second, success),
            other,
        ) ==> one == other,
{
    assert forall|from: N, to: N| reachable(first, from, to) == reachable(second, from, to) by {
        if reachable(first, from, to) {
            lemma_reachable_carries_over(first, second, from, to);
        }
        if reachable(second, from, to) {
            lemma_reachable_carries_over(second, first, from, to);
        }
    }
    assert forall|from: N, to: N| step(first, from, to) == step(second, from, to) by {
        if step(first, from, to) {
            lemma_step_carries_over(first, second, from, to);
        }
        if step(second, from, to) {
            lemma_step_carries_over(second, first, from, to);
        }
    }
}

/// Repeatability: two runs of the search on the same arguments give the same
/// answer.
pub proof fn law_repeatable<N, FN, FS>(
    start: N,
    successors: FN,
    success: FS,
    once: bool,
    again: bool,
)
    where
        N: Eq + Hash,
        FN: Fn(&N) -> Vec<N>,
        FS: Fn(&N) -> bool,
    requires
        call_ensures(can_reach::<N, FN, FS>, (start, successors, success), once),
        call_ensures(can_reach::<N, FN, FS>, (start, successors, success), again),
    ensures
        once == again,
{
}

/// Repeatability of the search beyond the start: two runs on the same
/// arguments give the same answer.
pub proof fn law_repeatable_exclusive<N, FN, FS>(
    start: N,
    successors: FN,
    success: FS,
    once: bool,
    again: bool,
)
    where
        N: Eq + Hash,
        FN: Fn(&N) -> Vec<N>,
        FS: Fn(&N) -> bool,
    requires
        call_ensures(can_reach_exclusive::<N, FN, FS>, (start, successors, success), once),
        call_ensures(can_reach_exclusive::<N, FN, FS>, (start, successors, success), again),
    ensures
        once == again,
{
}

/// A step of `first` is a step of `second` where `second` yields what `first`
/// yields.
proof fn lemma_step_carries_over<N, F: Fn(&N) -> Vec<N>, G: Fn(&N) -> Vec<N>>(
    first: F,
    second: G,
    from: N,
    to: N,
)
    requires
        yields_reordered(first, second),
        step(first, from, to),
    ensures
        step(second, from, to),
{
    let out = choose|out: Vec<N>| #[trigger] first.ensures((&from,), out) && out@.contains(to);
    let other = choose|other: Vec<N>| #[trigger]
        second.ensures((&from,), other) && out@.to_multiset() == other@.to_multiset();
    vstd::seq_lib::to_multiset_contains(out@, to);
    vstd::seq_lib::to_multiset_contains(other@, to);
}

/// A walk of `first` is a walk of `second` where `second` yields what `first`
/// yields.
proof fn lemma_reachable_carries_over<N, F: Fn(&N) -> Vec<N>, G: Fn(&N) -> Vec<N>>(
    first: F,
    second: G,
    from: N,
    to: N,
)
    requires
        yields_reordered(first, second),
        reachable(first, from, to),
    ensures
        reachable(second, from, to),
{
    let path = choose|path: Seq<N>| walk(first, from, to, path);
    assert forall|i: int| 0 <= i < path.len() - 1 implies step(
        second,
        #[trigger] path[i],
        path[i + 1],
    ) by {
        lemma_step_carries_over(first, second, path[i], path[i + 1]);
    }
    assert(walk(second, from, to, path));
}

} // verus!
