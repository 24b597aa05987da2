//! Depth-first search for a goal node, guarded against cycles by the set of
//! the nodes already entered.
//!
//! Both entry points share one traversal. It enters a node, which puts the
//! node into the visited set, and then takes the node's successors in the
//! order in which the successor function yields them: a successor that the
//! goal predicate accepts ends the whole search at once; one that has not
//! been entered before is entered in turn; one that has is passed over. The
//! start node is entered like any other, in both variants, so a cycle that
//! leads back to it is never followed a second time.
//!
//! The visited set takes each node itself, so nothing is cloned: the
//! successors of a node are asked for just before the node moves into the set.

use std::collections::HashSet;
use std::hash::Hash;
use vstd::prelude::*;
use vstd::std_specs::hash::obeys_key_model;
use crate::graph::{
    accepts, decidable, lemma_closed_set_holds_no_goal, lemma_reachable_after_step,
    lemma_reachable_beyond_is_reachable, lemma_reachable_self, lemma_reaches_goal_cases,
    lemma_searchable_after_step, lemma_unvisited_shrinks, reach_set, reachable, reachable_beyond,
    reaches_goal, reaches_goal_beyond, searchable, step,
};

verus! {

/// Decides whether a node that `success` accepts is reached from `start` by
/// zero or more steps of `successors`: the start node itself counts.
///
/// The start node is tested first. If it is accepted, the answer is `true`
/// whatever the successor function is, and nothing is asked of the graph.
/// If it is not, the answer is that of [`can_reach_exclusive`], and the caller
/// answers for the graph: only finitely many nodes are reached from `start`,
/// and on each of them both functions can be called and are deterministic
/// (see [`searchable`]). Nodes are compared and hashed as the model of `vstd`
/// for hash tables asks.
pub fn can_reach<N, FN, FS>(start: N, successors: FN, success: FS) -> (found: bool)
    where
        N: Eq + Hash,
        FN: Fn(&N) -> Vec<N>,
        FS: Fn(&N) -> bool,
    requires
        obeys_key_model::<N>(),
        decidable(success, start),
        !accepts(success, start) ==> searchable(successors, success, start),
    ensures
        found == reaches_goal(successors, success, start),
        accepts(success, start) ==> found,
{
    proof {
        lemma_reaches_goal_cases(successors, success, start);
    }
    if success(&start) {
        true
    } else {
        can_reach_exclusive(start, successors, success)
    }
}

/// Decides whether a node that `success` accepts is reached from `start` by
/// one or more steps of `successors`.
///
/// The start node is not tested for being where the search begins. It is
/// tested like any other node where it is a successor of a node that the
/// search enters, itself included: an accepted start node on a cycle is found.
pub fn can_reach_exclusive<N, FN, FS>(start: N, successors: FN, success: FS) -> (found: bool)
    where
        N: Eq + Hash,
        FN: Fn(&N) -> Vec<N>,
        FS: Fn(&N) -> bool,
    requires
        obeys_key_model::<N>(),
        searchable(successors, success, start),
    ensures
        found == reaches_goal_beyond(successors, success, start),
{
    let ghost origin = start;
    let mut visited: HashSet<N> = HashSet::new();
    let found = traverse(start, &successors, &success, &mut visited);
    proof {
        if !found {
            lemma_closed_set_holds_no_goal(successors, success, origin, visited@);
        }
    }
    found
}

/// Enters `start`, which has not been entered before, then tests its
/// successors in turn and enters those that are new.
///
/// The visited set only grows, by `start` and by nodes reached from it. A
/// `true` result means that a goal lies beyond `start`. After a `false` result
/// every node entered by this call is closed: each of its successors has
/// been entered, by this call or before it, and none of them is accepted.
fn traverse<N, FN, FS>(start: N, successors: &FN, success: &FS, visited: &mut HashSet<N>) -> (found:
    bool)
    where
        N: Eq + Hash,
        FN: Fn(&N) -> Vec<N>,
        FS: Fn(&N) -> bool,
    requires
        obeys_key_model::<N>(),
        searchable(*successors, *success, start),
        !old(visited)@.contains(start),
    ensures
        old(visited)@.insert(start).subset_of(final(visited)@),
        forall|node: N|
            final(visited)@.contains(node) && !old(visited)@.contains(node) ==> reachable(
                *successors,
                start,
                node,
            ),
        found ==> reaches_goal_beyond(*successors, *success, start),
        !found ==> forall|node: N, next: N|
            final(visited)@.contains(node) && !old(visited)@.contains(node) && #[trigger] step(
                *successors,
                node,
                next,
            ) ==> final(visited)@.contains(next) && !accepts(*success, next),
    decreases reach_set(*successors, start).difference(old(visited)@).len(),
{
    broadcast use vstd::std_specs::hash::group_hash_axioms;

    let ghost before = visited@;
    let ghost here = start;
    proof {
        lemma_reachable_self(*successors, here);
    }
    let next = successors(&start);
    let ghost items = next@;
    visited.insert(start);
    for n in it: next
        invariant
            obeys_key_model::<N>(),
            searchable(*successors, *success, here),
            it.seq() == items,
            here == start,
            before == old(visited)@,
            !before.contains(here),
            before.insert(here).subset_of(visited@),
            forall|to: N| step(*successors, here, to) <==> items.contains(to),
            forall|node: N|
                visited@.contains(node) && !before.contains(node) ==> reachable(
                    *successors,
                    here,
                    node,
                ),
            forall|node: N, to: N|
                visited@.contains(node) && !before.contains(node) && node != here && #[trigger] step(
                    *successors,
                    node,
                    to,
                ) ==> visited@.contains(to) && !accepts(*success, to),
            forall|j: int|
                0 <= j < it.index() ==> visited@.contains(#[trigger] items[j]) && !accepts(
                    *success,
                    items[j],
                ),
    {
        let ghost child = n;
        proof {
            assert(items.contains(child));
            lemma_reachable_self(*successors, child);
            lemma_reachable_after_step(*successors, here, child, child);
            lemma_searchable_after_step(*successors, *success, here, child);
        }
        if success(&n) {
            assert(reachable_beyond(*successors, here, child) && accepts(*success, child));
            return true;
        }
        if !visited.contains(&n) {
            proof {
                lemma_unvisited_shrinks(*successors, here, child, before, visited@);
            }
            let found = traverse(n, successors, success, visited);
            proof {
                assert forall|node: N| reachable(*successors, child, node) implies reachable(
                    *successors,
                    here,
                    node,
                ) by {
                    lemma_reachable_after_step(*successors, here, child, node);
                }
            }
            if found {
                proof {
                    let goal = choose|goal: N|
                        reachable_beyond(*successors, child, goal) && accepts(*success, goal);
                    lemma_reachable_beyond_is_reachable(*successors, child, goal);
                    lemma_reachable_after_step(*successors, here, child, goal);
                }
                return true;
            }
        }
    }
    false
}

} // verus!
