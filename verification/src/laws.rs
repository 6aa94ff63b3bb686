//! Laws of the puzzle that relate its operations to one another.
use crate::model::{
    in_range, is_first_solution, legal, lemma_top_run_is_run, poured, rejection, replay, solved,
    solves, top_run, units, within_capacity,
};
use crate::puzzle::{Transfer, TransferError};
use vstd::prelude::*;
use vstd::seq_lib::lemma_multiset_commutative;

verus! {

/// Replacing one tube takes its units out of the state and puts those of
/// the new tube in.
proof fn lemma_units_update(state: Seq<Seq<u32>>, i: int, tube: Seq<u32>)
    requires
        0 <= i < state.len(),
    ensures
        units(state.update(i, tube)).add(state[i].to_multiset()) == units(state).add(
            tube.to_multiset(),
        ),
    decreases state.len(),
{
    let changed = state.update(i, tube);
    let rest = state.drop_last();
    if i == state.len() - 1 {
        assert(changed.drop_last() =~= rest);
    } else {
        assert(changed.drop_last() =~= rest.update(i, tube));
        lemma_units_update(rest, i, tube);
    }
    assert forall|unit: u32|
        units(changed).add(state[i].to_multiset()).count(unit) == units(state).add(
            tube.to_multiset(),
        ).count(unit) by {
        if i < state.len() - 1 {
            assert(units(rest.update(i, tube)).add(state[i].to_multiset()).count(unit) == units(
                rest,
            ).add(tube.to_multiset()).count(unit));
        }
    }
}

/// A pour moves the whole top run of the source and nothing else: the
/// source keeps what lay below the run, the destination gains the run on
/// top, the other tubes stay as they are, and what is then on top of the
/// source, if anything, has another color than the run.
pub proof fn lemma_pour_moves_whole_run(state: Seq<Seq<u32>>, t: Transfer)
    requires
        legal(state, t),
    ensures
        ({
            let source = state[t.from as int];
            let dest = state[t.to as int];
            let run = top_run(source);
            let after = poured(state, t);
            &&& 1 <= run <= source.len()
            &&& after.len() == state.len()
            &&& after[t.from as int] == source.take(source.len() - run)
            &&& after[t.to as int] == dest + source.skip(source.len() - run)
            &&& forall|i: int|
                0 <= i < state.len() && i != t.from && i != t.to ==> after[i] == state[i]
            &&& forall|i: int| dest.len() <= i < dest.len() + run ==> after[t.to as int][i]
                == source.last()
            &&& after[t.from as int].len() > 0 ==> after[t.from as int].last() != source.last()
        }),
{
    lemma_top_run_is_run(state[t.from as int]);
}

/// Conservation, for one pour: the state after a pour holds the same units
/// as the state before it.
pub proof fn lemma_pour_conserves_units(state: Seq<Seq<u32>>, t: Transfer)
    requires
        legal(state, t),
    ensures
        units(poured(state, t)) == units(state),
{
    let source = state[t.from as int];
    let dest = state[t.to as int];
    lemma_top_run_is_run(source);
    let kept = source.take(source.len() - top_run(source));
    let run = source.skip(source.len() - top_run(source));
    let without = state.update(t.from as int, kept);
    let after = poured(state, t);
    lemma_units_update(state, t.from as int, kept);
    lemma_units_update(without, t.to as int, dest + run);
    assert(source =~= kept + run);
    lemma_multiset_commutative(kept, run);
    lemma_multiset_commutative(dest, run);
    assert forall|unit: u32| units(after).count(unit) == units(state).count(unit) by {
        assert(units(without).add(source.to_multiset()).count(unit) == units(state).add(
            kept.to_multiset(),
        ).count(unit));
        assert(units(after).add(dest.to_multiset()).count(unit) == units(without).add(
            (dest + run).to_multiset(),
        ).count(unit));
    }
}

/// Conservation: after any sequence of pours that can be made, the tubes
/// together hold the same units as before.
pub proof fn lemma_replay_conserves_units(init: Seq<Seq<u32>>, path: Seq<Transfer>)
    requires
        replay(init, path) is Some,
    ensures
        units(replay(init, path).unwrap()) == units(init),
    decreases path.len(),
{
    if path.len() > 0 {
        lemma_replay_conserves_units(init, path.drop_last());
        lemma_pour_conserves_units(replay(init, path.drop_last()).unwrap(), path.last());
    }
}

/// Capacity, for one pour: a pour keeps the number of tubes, and if no tube
/// held more than it has room for, none does afterwards.
pub proof fn lemma_pour_keeps_capacity(state: Seq<Seq<u32>>, t: Transfer)
    requires
        legal(state, t),
        within_capacity(state),
    ensures
        poured(state, t).len() == state.len(),
        within_capacity(poured(state, t)),
{
    lemma_top_run_is_run(state[t.from as int]);
}

/// Capacity: no state that is reached from a state within capacity holds
/// a tube with more units than it has room for.
pub proof fn lemma_replay_keeps_capacity(init: Seq<Seq<u32>>, path: Seq<Transfer>)
    requires
        within_capacity(init),
        replay(init, path) is Some,
    ensures
        replay(init, path).unwrap().len() == init.len(),
        within_capacity(replay(init, path).unwrap()),
    decreases path.len(),
{
    if path.len() > 0 {
        lemma_replay_keeps_capacity(init, path.drop_last());
        lemma_pour_keeps_capacity(replay(init, path.drop_last()).unwrap(), path.last());
    }
}

/// In a solved state every pour is refused, and for one of the first four
/// reasons: a tube of a solved state is empty or filled with one color,
/// so it is no source.
pub proof fn lemma_solved_state_refuses_every_pour(state: Seq<Seq<u32>>, t: Transfer)
    requires
        solved(state),
        in_range(state, t),
    ensures
        !legal(state, t),
        rejection(state, t) == Some(TransferError::SameTube) || rejection(state, t) == Some(
            TransferError::DestinationFull,
        ) || rejection(state, t) == Some(TransferError::SourceEmpty) || rejection(state, t)
            == Some(TransferError::SourceAlreadySolved),
{
}

/// From a solved state no pour leads on: the only path that can be
/// replayed is the empty one.
pub proof fn lemma_solved_state_is_final(init: Seq<Seq<u32>>, path: Seq<Transfer>)
    requires
        solved(init),
        replay(init, path) is Some,
    ensures
        path.len() == 0,
    decreases path.len(),
{
    if path.len() > 0 {
        lemma_solved_state_is_final(init, path.drop_last());
    }
}

/// Replaying a path makes its pours one after the other, first to last:
/// each pour can be made in the state that the pours before it lead to,
/// and leads to the state from which the next one is made.
pub proof fn lemma_replay_step(init: Seq<Seq<u32>>, path: Seq<Transfer>, i: int)
    requires
        replay(init, path) is Some,
        0 <= i < path.len(),
    ensures
        replay(init, path.take(i)) is Some,
        legal(replay(init, path.take(i)).unwrap(), path[i]),
        replay(init, path.take(i + 1)) == Some(
            poured(replay(init, path.take(i)).unwrap(), path[i]),
        ),
        replay(init, path.take(path.len() as int)) == replay(init, path),
    decreases path.len(),
{
    assert(path.take(path.len() as int) =~= path);
    if i < path.len() - 1 {
        let before = path.drop_last();
        lemma_replay_step(init, before, i);
        assert(before.take(i) =~= path.take(i));
        assert(before.take(i + 1) =~= path.take(i + 1));
    }
}

/// Determinism: a state has at most one first solution, so two searches
/// from the same state return the same path.
pub proof fn lemma_first_solution_unique(
    init: Seq<Seq<u32>>,
    one: Seq<Transfer>,
    other: Seq<Transfer>,
)
    requires
        is_first_solution(init, one),
        is_first_solution(init, other),
    ensures
        one == other,
{
}

/// Optimality: no path that solves the puzzle is shorter than the first
/// solution.
pub proof fn lemma_first_solution_is_shortest(
    init: Seq<Seq<u32>>,
    first: Seq<Transfer>,
    other: Seq<Transfer>,
)
    requires
        is_first_solution(init, first),
        solves(init, other),
    ensures
        first.len() <= other.len(),
{
}

} // verus!
