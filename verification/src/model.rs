//! The mathematical model: a tube is a sequence of colors from bottom to
//! top, a puzzle state is a sequence of tubes.
use crate::order::path_not_after;
use crate::puzzle::{Transfer, TransferError};
use vstd::multiset::Multiset;
use vstd::prelude::*;

verus! {

/// The number of units that a tube can hold.
pub const CAPACITY: usize = 4;

/// `n` is the length of the run on top of `tube`: the last `n` units all
/// have the color of the top unit, and the unit below them, if there is
/// one, has another color. An empty tube has a run of length 0.
pub open spec fn is_top_run(tube: Seq<u32>, n: nat) -> bool {
    &&& n <= tube.len()
    &&& tube.len() > 0 ==> n >= 1
    &&& forall|i: int| tube.len() - n <= i < tube.len() ==> tube[i] == tube.last()
    &&& n < tube.len() ==> tube[tube.len() - n - 1] != tube.last()
}

/// The length of the run of equal units on top of `tube`.
pub open spec fn top_run(tube: Seq<u32>) -> nat
    decreases tube.len(),
{
    if tube.len() == 0 {
        0
    } else if tube.len() >= 2 && tube[tube.len() - 2] == tube.last() {
        1 + top_run(tube.drop_last())
    } else {
        1
    }
}

/// `top_run` computes the run that `is_top_run` describes.
pub proof fn lemma_top_run_is_run(tube: Seq<u32>)
    ensures
        is_top_run(tube, top_run(tube)),
    decreases tube.len(),
{
    if tube.len() >= 2 && tube[tube.len() - 2] == tube.last() {
        let rest = tube.drop_last();
        lemma_top_run_is_run(rest);
        assert forall|i: int| tube.len() - (top_run(rest) + 1) <= i < tube.len() implies tube[i]
            == tube.last() by {
            if i < tube.len() - 1 {
                assert(rest[i] == rest.last());
            }
        }
    }
}

/// A tube has only one top run.
pub proof fn lemma_top_run_unique(tube: Seq<u32>, n: nat)
    requires
        is_top_run(tube, n),
    ensures
        n == top_run(tube),
    decreases tube.len(),
{
    if tube.len() >= 2 && tube[tube.len() - 2] == tube.last() {
        let rest = tube.drop_last();
        lemma_top_run_unique(rest, (n - 1) as nat);
    }
}

/// A tube is solved when it is empty or when its top run fills it to
/// capacity.
pub open spec fn tube_solved(tube: Seq<u32>) -> bool {
    tube.len() == 0 || top_run(tube) == CAPACITY
}

/// A state is solved when each of its tubes is.
pub open spec fn solved(state: Seq<Seq<u32>>) -> bool {
    forall|i: int| 0 <= i < state.len() ==> tube_solved(#[trigger] state[i])
}

/// No tube of the state holds more units than it has room for.
pub open spec fn within_capacity(state: Seq<Seq<u32>>) -> bool {
    forall|i: int| 0 <= i < state.len() ==> (#[trigger] state[i]).len() <= CAPACITY
}

/// The units of all tubes together, each color as often as it occurs.
pub open spec fn units(state: Seq<Seq<u32>>) -> Multiset<u32>
    decreases state.len(),
{
    if state.len() == 0 {
        Multiset::empty()
    } else {
        units(state.drop_last()).add(state.last().to_multiset())
    }
}

/// Both tubes that the transfer names exist in the state.
pub open spec fn in_range(state: Seq<Seq<u32>>, t: Transfer) -> bool {
    t.from < state.len() && t.to < state.len()
}

/// Why the pour `t` cannot be made in `state`, or `None` if it can. The
/// reasons are tried in the order in which `TransferError` lists them.
pub open spec fn rejection(state: Seq<Seq<u32>>, t: Transfer) -> Option<TransferError>
    recommends
        in_range(state, t),
{
    let source = state[t.from as int];
    let dest = state[t.to as int];
    if t.from == t.to {
        Some(TransferError::SameTube)
    } else if dest.len() == CAPACITY {
        Some(TransferError::DestinationFull)
    } else if source.len() == 0 {
        Some(TransferError::SourceEmpty)
    } else if top_run(source) == CAPACITY {
        Some(TransferError::SourceAlreadySolved)
    } else if dest.len() == 0 {
        None
    } else if source.last() == dest.last() && top_run(source) + dest.len() <= CAPACITY {
        None
    } else {
        Some(TransferError::ColorMismatchOrOverflow)
    }
}

/// The pour `t` names two tubes of `state` and nothing speaks against it.
pub open spec fn legal(state: Seq<Seq<u32>>, t: Transfer) -> bool {
    in_range(state, t) && rejection(state, t) is None
}

/// The state after the pour `t`: the source tube loses its whole top run,
/// the destination tube gains it on top, every other tube is unchanged.
pub open spec fn poured(state: Seq<Seq<u32>>, t: Transfer) -> Seq<Seq<u32>>
    recommends
        legal(state, t),
{
    let source = state[t.from as int];
    let dest = state[t.to as int];
    let kept = source.len() - top_run(source);
    state.update(t.from as int, source.take(kept)).update(t.to as int, dest + source.skip(kept))
}

/// The state that the pours of `path`, made one after the other from
/// `init`, lead to; `None` if one of them cannot be made.
pub open spec fn replay(init: Seq<Seq<u32>>, path: Seq<Transfer>) -> Option<Seq<Seq<u32>>>
    decreases path.len(),
{
    if path.len() == 0 {
        Some(init)
    } else {
        match replay(init, path.drop_last()) {
            Some(state) => if legal(state, path.last()) {
                Some(poured(state, path.last()))
            } else {
                None
            },
            None => None,
        }
    }
}

/// Every pour of `path` can be made in its turn, and the last one leaves a
/// solved state.
pub open spec fn solves(init: Seq<Seq<u32>>, path: Seq<Transfer>) -> bool {
    match replay(init, path) {
        Some(end) => solved(end),
        None => false,
    }
}

/// `path` solves `init`, and no solving path comes before it: none is
/// shorter, and among the shortest none makes an earlier pour at the first
/// position where the two differ.
pub open spec fn is_first_solution(init: Seq<Seq<u32>>, path: Seq<Transfer>) -> bool {
    &&& solves(init, path)
    &&& forall|other: Seq<Transfer>| #[trigger] solves(init, other) ==> path_not_after(path, other)
}

} // verus!
