//! What the breadth-first search knows while it runs.
//!
//! The search keeps the paths that it has found in the order in which it
//! found them, one for each state that it has met. The paths before the
//! front have had all their pours tried; the path at the front is the one
//! whose pours are being tried. This file states what holds of that list
//! and proves that each step of the search keeps it.
use crate::model::{is_first_solution, legal, poured, replay, solved, solves};
use crate::order::{
    lemma_path_before_last, lemma_path_before_push, lemma_path_before_transitive, path_before,
    path_not_after, tried_before,
};
use crate::puzzle::Transfer;
use vstd::prelude::*;

verus! {

/// The state that `path` leads to from `init`.
pub open spec fn end_of(init: Seq<Seq<u32>>, path: Seq<Transfer>) -> Seq<Seq<u32>> {
    replay(init, path).unwrap()
}

/// One of `paths` leads to `state`.
pub open spec fn found(
    init: Seq<Seq<u32>>,
    paths: Seq<Seq<Transfer>>,
    state: Seq<Seq<u32>>,
) -> bool {
    exists|j: int| 0 <= j < paths.len() && #[trigger] replay(init, paths[j]) == Some(state)
}

/// No path to the state that `path` leads to comes before `path`.
pub open spec fn is_first_path(init: Seq<Seq<u32>>, path: Seq<Transfer>) -> bool {
    forall|other: Seq<Transfer>| #[trigger]
        replay(init, other) == replay(init, path) ==> path_not_after(path, other)
}

/// Every pour that can be made at the end of `path` leads to a state that
/// one of `paths` leads to.
pub open spec fn is_expanded(
    init: Seq<Seq<u32>>,
    paths: Seq<Seq<Transfer>>,
    path: Seq<Transfer>,
) -> bool {
    forall|t: Transfer| #[trigger]
        legal(end_of(init, path), t) ==> found(init, paths, poured(end_of(init, path), t))
}

/// `path` is no longer than `front`, or it extends by one pour a path that
/// does not come after `front`.
pub open spec fn near(path: Seq<Transfer>, front: Seq<Transfer>) -> bool {
    path.len() <= front.len() || (path.len() == front.len() + 1 && path_not_after(
        path.drop_last(),
        front,
    ))
}

/// `moves` lists the pours that can be made in `state`, in the order in
/// which they are tried, and leaves none out.
pub open spec fn moves_of(state: Seq<Seq<u32>>, moves: Seq<Transfer>) -> bool {
    &&& forall|k: int| 0 <= k < moves.len() ==> legal(state, #[trigger] moves[k])
    &&& forall|j: int, k: int|
        0 <= j < k < moves.len() ==> tried_before(#[trigger] moves[j], #[trigger] moves[k])
    &&& forall|t: Transfer| #[trigger]
        legal(state, t) ==> exists|k: int| 0 <= k < moves.len() && (#[trigger] moves[k]) == t
}

/// What holds of the list of paths when the first `head` of them have had
/// their pours tried: the list starts with the empty path; each path can
/// be replayed and is the first to its state; the paths stand in ascending
/// order; and the paths before `head` lead to unsolved states whose
/// successors are all in the list.
pub open spec fn explored_ok(init: Seq<Seq<u32>>, paths: Seq<Seq<Transfer>>, head: int) -> bool {
    &&& 0 <= head <= paths.len()
    &&& paths.len() >= 1
    &&& paths[0].len() == 0
    &&& forall|i: int| 0 <= i < paths.len() ==> replay(init, #[trigger] paths[i]) is Some
    &&& forall|i: int| 0 <= i < paths.len() ==> is_first_path(init, #[trigger] paths[i])
    &&& forall|i: int, j: int|
        0 <= i < j < paths.len() ==> path_before(#[trigger] paths[i], #[trigger] paths[j])
    &&& forall|i: int| 0 <= i < head ==> is_expanded(init, paths, #[trigger] paths[i])
    &&& forall|i: int| 0 <= i < head ==> !solved(end_of(init, #[trigger] paths[i]))
}

/// What holds while the pours of the path at `head` are tried, when the
/// first `k` of `moves` have been: every path of the list is near the one
/// at `head`; those that extend it do so by one of the first `k` moves;
/// and the states that these moves lead to are in the list.
pub open spec fn expanding(
    init: Seq<Seq<u32>>,
    paths: Seq<Seq<Transfer>>,
    head: int,
    moves: Seq<Transfer>,
    k: int,
) -> bool {
    &&& explored_ok(init, paths, head)
    &&& head < paths.len()
    &&& 0 <= k <= moves.len()
    &&& forall|j: int| 0 <= j < paths.len() ==> near(#[trigger] paths[j], paths[head])
    &&& forall|j: int|
        0 <= j < paths.len() && (#[trigger] paths[j]).len() == paths[head].len() + 1
            && paths[j].drop_last() == paths[head] ==> exists|m: int|
            0 <= m < k && (#[trigger] moves[m]) == paths[j].last()
    &&& forall|m: int|
        0 <= m < k ==> found(init, paths, poured(end_of(init, paths[head]), #[trigger] moves[m]))
}

/// What holds between two expansions: the list is in order, and if a path
/// is left at `head`, none of the list extends it yet.
pub open spec fn ready(init: Seq<Seq<u32>>, paths: Seq<Seq<Transfer>>, head: int) -> bool {
    &&& explored_ok(init, paths, head)
    &&& head < paths.len() ==> expanding(init, paths, head, Seq::empty(), 0)
}

/// A list that holds a state keeps it when it grows.
pub proof fn lemma_found_push(
    init: Seq<Seq<u32>>,
    paths: Seq<Seq<Transfer>>,
    path: Seq<Transfer>,
    state: Seq<Seq<u32>>,
)
    requires
        found(init, paths, state),
    ensures
        found(init, paths.push(path), state),
{
    let j = choose|j: int| 0 <= j < paths.len() && #[trigger] replay(init, paths[j]) == Some(state);
    assert(paths.push(path)[j] == paths[j]);
}

/// The search starts with the empty path alone.
pub proof fn lemma_search_start(init: Seq<Seq<u32>>)
    ensures
        ready(init, seq![Seq::<Transfer>::empty()], 0),
{
    let root = Seq::<Transfer>::empty();
    assert forall|other: Seq<Transfer>| #[trigger]
        replay(init, other) == replay(init, root) implies path_not_after(root, other) by {
        if other.len() == 0 {
            assert(other =~= root);
        }
    }
}

/// A path that can be replayed ends in a state of the list, or it is
/// longer than the path at the front: to leave the list it has to pass
/// through a state whose pours have not all been tried.
pub proof fn lemma_escape(
    init: Seq<Seq<u32>>,
    paths: Seq<Seq<Transfer>>,
    head: int,
    path: Seq<Transfer>,
)
    requires
        explored_ok(init, paths, head),
        replay(init, path) is Some,
    ensures
        found(init, paths, end_of(init, path)) || (head < paths.len() && paths[head].len()
            < path.len()),
    decreases path.len(),
{
    // The empty path ends where the first path of the list does. A longer
    // path either left the list before its last pour, or makes that pour
    // from a state of the list: from one before the front, whose successors
    // are all in the list, or from one that is reached no sooner than the
    // front is.
    if path.len() > 0 {
        lemma_escape(init, paths, head, path.drop_last());
    }
}

/// If the path at the front leads to a solved state, it is the first
/// solution.
pub proof fn lemma_front_solved(init: Seq<Seq<u32>>, paths: Seq<Seq<Transfer>>, head: int)
    requires
        explored_ok(init, paths, head),
        head < paths.len(),
        solved(end_of(init, paths[head])),
    ensures
        is_first_solution(init, paths[head]),
{
    let front = paths[head];
    assert forall|other: Seq<Transfer>| #[trigger] solves(init, other) implies path_not_after(
        front,
        other,
    ) by {
        // A solved state of the list stands at the front or behind it, and
        // `other` does not come before the path that the list has to it.
        lemma_escape(init, paths, head, other);
        let end = end_of(init, other);
        if found(init, paths, end) {
            let j = choose|j: int|
                0 <= j < paths.len() && #[trigger] replay(init, paths[j]) == Some(end);
            if head < j && paths[j] != other {
                lemma_path_before_transitive(front, paths[j], other);
            }
        }
    }
}

/// When the pours of every path of the list have been tried, no path at
/// all solves the puzzle.
pub proof fn lemma_search_exhausted(init: Seq<Seq<u32>>, paths: Seq<Seq<Transfer>>)
    requires
        explored_ok(init, paths, paths.len() as int),
    ensures
        forall|path: Seq<Transfer>| !solves(init, path),
{
    assert forall|path: Seq<Transfer>| !solves(init, path) by {
        if solves(init, path) {
            lemma_escape(init, paths, paths.len() as int, path);
        }
    }
}

/// The path that a move to a new state gives comes after every path of
/// the list.
proof fn lemma_new_path_is_last(
    init: Seq<Seq<u32>>,
    paths: Seq<Seq<Transfer>>,
    head: int,
    moves: Seq<Transfer>,
    k: int,
    j: int,
)
    requires
        expanding(init, paths, head, moves, k),
        moves_of(end_of(init, paths[head]), moves),
        k < moves.len(),
        0 <= j < paths.len(),
    ensures
        path_before(paths[j], paths[head].push(moves[k])),
{
    let front = paths[head];
    let path = paths[j];
    // A path no longer than `front` is shorter than the new one; a longer
    // one extends `front` by an earlier move, or extends an earlier path.
    if path.len() == front.len() + 1 {
        assert(path =~= path.drop_last().push(path.last()));
        if path.drop_last() == front {
            let m = choose|m: int| 0 <= m < k && (#[trigger] moves[m]) == path.last();
            lemma_path_before_last(front, moves[m], moves[k]);
        } else {
            lemma_path_before_push(path.drop_last(), path.last(), front, moves[k]);
        }
    }
}

/// The path that a move to a new state gives is the first path to that
/// state.
proof fn lemma_new_path_is_first(
    init: Seq<Seq<u32>>,
    paths: Seq<Seq<Transfer>>,
    head: int,
    moves: Seq<Transfer>,
    k: int,
    other: Seq<Transfer>,
)
    requires
        expanding(init, paths, head, moves, k),
        moves_of(end_of(init, paths[head]), moves),
        k < moves.len(),
        !found(init, paths, poured(end_of(init, paths[head]), moves[k])),
        replay(init, other) == Some(poured(end_of(init, paths[head]), moves[k])),
    ensures
        path_not_after(paths[head].push(moves[k]), other),
{
    let front = paths[head];
    // The new state is not the first of the list, so `other` has a last pour.
    if other.len() > 0 {
        let before = other.drop_last();
        let t = other.last();
        assert(other =~= before.push(t));
        let state = end_of(init, before);
        // If `before` has left the list, it is longer than `front`. If not,
        // it ends in a state of the list, and not in one before the front,
        // all of whose successors the list holds.
        lemma_escape(init, paths, head, before);
        if found(init, paths, state) {
            let j = choose|j: int|
                0 <= j < paths.len() && #[trigger] replay(init, paths[j]) == Some(state);
            if j == head {
                // `t` is a move of the front state, and none of the first
                // `k`, which lead to states of the list.
                let m = choose|m: int| 0 <= m < moves.len() && (#[trigger] moves[m]) == t;
                if front != before {
                    lemma_path_before_push(front, moves[k], before, t);
                } else if m > k {
                    lemma_path_before_last(front, moves[k], t);
                }
            } else if j > head {
                if paths[j] != before {
                    lemma_path_before_transitive(front, paths[j], before);
                }
                lemma_path_before_push(front, moves[k], before, t);
            }
        }
    }
}

/// A move that leads to a state that the list lacks puts the path to it at
/// the end of the list.
pub proof fn lemma_add_move(
    init: Seq<Seq<u32>>,
    paths: Seq<Seq<Transfer>>,
    head: int,
    moves: Seq<Transfer>,
    k: int,
)
    requires
        expanding(init, paths, head, moves, k),
        moves_of(end_of(init, paths[head]), moves),
        k < moves.len(),
        !found(init, paths, poured(end_of(init, paths[head]), moves[k])),
    ensures
        expanding(init, paths.push(paths[head].push(moves[k])), head, moves, k + 1),
        replay(init, paths[head].push(moves[k])) == Some(
            poured(end_of(init, paths[head]), moves[k]),
        ),
{
    let front = paths[head];
    let end = end_of(init, front);
    let fresh = front.push(moves[k]);
    let grown = paths.push(fresh);
    let last = paths.len() as int;
    assert(fresh.drop_last() =~= front);
    assert forall|i: int| 0 <= i < grown.len() implies is_first_path(
        init,
        #[trigger] grown[i],
    ) by {
        if i == last {
            assert forall|other: Seq<Transfer>| #[trigger]
                replay(init, other) == replay(init, fresh) implies path_not_after(fresh, other) by {
                lemma_new_path_is_first(init, paths, head, moves, k, other);
            }
        }
    }
    assert forall|i: int, j: int| 0 <= i < j < grown.len() implies path_before(
        #[trigger] grown[i],
        #[trigger] grown[j],
    ) by {
        if j == last {
            lemma_new_path_is_last(init, paths, head, moves, k, i);
        }
    }
    assert forall|i: int| 0 <= i < head implies is_expanded(init, grown, #[trigger] grown[i]) by {
        assert forall|t: Transfer| #[trigger] legal(end_of(init, paths[i]), t) implies found(
            init,
            grown,
            poured(end_of(init, paths[i]), t),
        ) by {
            lemma_found_push(init, paths, fresh, poured(end_of(init, paths[i]), t));
        }
    }
    assert forall|m: int| 0 <= m < k + 1 implies found(
        init,
        grown,
        poured(end_of(init, grown[head]), #[trigger] moves[m]),
    ) by {
        if m < k {
            lemma_found_push(init, paths, fresh, poured(end, moves[m]));
        } else {
            assert(replay(init, grown[last]) == Some(poured(end, moves[k])));
        }
    }
}

/// When every move of the front path has been tried, the next path of the
/// list is at the front.
pub proof fn lemma_end_expansion(
    init: Seq<Seq<u32>>,
    paths: Seq<Seq<Transfer>>,
    head: int,
    moves: Seq<Transfer>,
)
    requires
        expanding(init, paths, head, moves, moves.len() as int),
        moves_of(end_of(init, paths[head]), moves),
        !solved(end_of(init, paths[head])),
    ensures
        ready(init, paths, head + 1),
{
    let front = paths[head];
    if head + 1 < paths.len() {
        // Every path is near `front`, and `front` comes before `next`.
        let next = paths[head + 1];
        assert forall|j: int| 0 <= j < paths.len() implies near(#[trigger] paths[j], next) by {
            let path = paths[j];
            if path.len() == next.len() + 1 && path.drop_last() != front {
                lemma_path_before_transitive(path.drop_last(), front, next);
            }
        }
    }
}

} // verus!
