//! The executable puzzle: tubes, states, pours and the search.
use crate::laws::{
    lemma_pour_conserves_units, lemma_replay_conserves_units,
    lemma_solved_state_refuses_every_pour,
};
use crate::model::{
    in_range, is_first_solution, is_top_run, legal, lemma_top_run_unique, poured, rejection,
    replay, solved, solves, top_run, tube_solved, units, within_capacity, CAPACITY,
};
use crate::order::tried_before;
use crate::search::{
    expanding, lemma_add_move, lemma_end_expansion, lemma_front_solved, lemma_search_exhausted,
    lemma_search_start, moves_of, ready,
};
use std::collections::VecDeque;
use std::ops::Deref;
use vstd::prelude::*;
use vstd::std_specs::cmp::PartialEqSpecImpl;
use vstd::std_specs::convert::FromSpecImpl;

verus! {

/// One tube: its units from bottom to top.
#[derive(Debug)]
pub struct TubeState(pub VecDeque<u32>);

impl View for TubeState {
    type V = Seq<u32>;

    open spec fn view(&self) -> Seq<u32> {
        self.0@
    }
}

impl Default for TubeState {
    fn default() -> (tube: Self)
        ensures
            tube@ == Seq::<u32>::empty(),
    {
        TubeState(VecDeque::new())
    }
}

impl From<VecDeque<u32>> for TubeState {
    fn from(inner: VecDeque<u32>) -> (tube: Self) {
        TubeState(inner)
    }
}

impl FromSpecImpl<VecDeque<u32>> for TubeState {
    open spec fn obeys_from_spec() -> bool {
        true
    }

    open spec fn from_spec(inner: VecDeque<u32>) -> Self {
        TubeState(inner)
    }
}

impl Deref for TubeState {
    type Target = VecDeque<u32>;

    fn deref(&self) -> (inner: &VecDeque<u32>)
        ensures
            inner@ == self@,
    {
        &self.0
    }
}

impl Clone for TubeState {
    fn clone(&self) -> (copy: Self)
        ensures
            copy@ == self@,
    {
        TubeState(self.0.clone())
    }
}

impl PartialEq for TubeState {
    fn eq(&self, other: &Self) -> (same: bool) {
        let len = self.0.len();
        if len != other.0.len() {
            return false;
        }
        let mut i: usize = 0;
        while i < len
            invariant
                len == self@.len(),
                len == other@.len(),
                i <= len,
                forall|j: int| 0 <= j < i ==> self@[j] == other@[j],
            decreases len - i,
        {
            if self.0[i] != other.0[i] {
                return false;
            }
            i += 1;
        }
        proof {
            assert(self@ =~= other@);
        }
        true
    }
}

impl PartialEqSpecImpl for TubeState {
    open spec fn obeys_eq_spec() -> bool {
        true
    }

    open spec fn eq_spec(&self, other: &Self) -> bool {
        self@ == other@
    }
}

impl TubeState {
    /// Whether the tube is empty or filled to capacity with one color.
    pub fn is_solved(&self) -> (solved: bool)
        ensures
            solved == tube_solved(self@),
    {
        self.0.len() == 0 || self.count_top_color() == CAPACITY
    }

    /// Whether the tube holds exactly as many units as it has room for.
    pub fn is_full(&self) -> (full: bool)
        ensures
            full == (self@.len() == CAPACITY),
    {
        self.0.len() == CAPACITY
    }

    /// The number of units on top of the tube that share the color of the
    /// top unit; 0 for an empty tube.
    pub fn count_top_color(&self) -> (count: usize)
        ensures
            count == top_run(self@),
            is_top_run(self@, count as nat),
    {
        let len = self.0.len();
        if len == 0 {
            return 0;
        }
        let color = self.0[len - 1];
        let mut count: usize = 1;
        while count < len && self.0[len - count - 1] == color
            invariant
                len == self@.len(),
                len > 0,
                color == self@.last(),
                1 <= count <= len,
                forall|i: int| len - count <= i < len ==> self@[i] == color,
            decreases len - count,
        {
            count += 1;
        }
        proof {
            lemma_top_run_unique(self@, count as nat);
        }
        count
    }
}

/// The tubes of one puzzle, addressed by their index.
#[derive(Debug)]
pub struct PuzzleState(pub Vec<TubeState>);

impl View for PuzzleState {
    type V = Seq<Seq<u32>>;

    open spec fn view(&self) -> Seq<Seq<u32>> {
        Seq::new(self.0@.len(), |i: int| self.0@[i]@)
    }
}

impl Default for PuzzleState {
    fn default() -> (state: Self)
        ensures
            state@ == Seq::<Seq<u32>>::empty(),
    {
        PuzzleState(Vec::new())
    }
}

impl Deref for PuzzleState {
    type Target = Vec<TubeState>;

    fn deref(&self) -> (tubes: &Vec<TubeState>)
        ensures
            *tubes == self.0,
    {
        &self.0
    }
}

impl Clone for PuzzleState {
    fn clone(&self) -> (copy: Self)
        ensures
            copy@ == self@,
    {
        let mut tubes: Vec<TubeState> = Vec::new();
        let mut i: usize = 0;
        while i < self.0.len()
            invariant
                i <= self.0.len(),
                tubes.len() == i,
                forall|j: int| 0 <= j < i ==> tubes@[j]@ == self.0@[j]@,
            decreases self.0.len() - i,
        {
            tubes.push(self.0[i].clone());
            i += 1;
        }
        PuzzleState(tubes)
    }
}

impl PartialEq for PuzzleState {
    fn eq(&self, other: &Self) -> (same: bool) {
        let len = self.0.len();
        if len != other.0.len() {
            return false;
        }
        let mut i: usize = 0;
        while i < len
            invariant
                len == self@.len(),
                len == other@.len(),
                i <= len,
                forall|j: int| 0 <= j < i ==> self@[j] == other@[j],
            decreases len - i,
        {
            if self.0[i] != other.0[i] {
                assert(self@[i as int] != other@[i as int]);
                return false;
            }
            i += 1;
        }
        proof {
            assert(self@ =~= other@);
        }
        true
    }
}

impl PartialEqSpecImpl for PuzzleState {
    open spec fn obeys_eq_spec() -> bool {
        true
    }

    open spec fn eq_spec(&self, other: &Self) -> bool {
        self@ == other@
    }
}

/// A state that the search has reached, with the pours that lead to it
/// from the state where the search began.
#[derive(Debug)]
pub struct PuzzleStateNode {
    pub transfers: Vec<Transfer>,
    pub state: PuzzleState,
}

/// Whether `state` is one of `states`.
fn contains_state(states: &Vec<PuzzleState>, state: &PuzzleState) -> (held: bool)
    ensures
        held == exists|i: int| 0 <= i < states@.len() && (#[trigger] states@[i])@ == state@,
{
    let mut i: usize = 0;
    while i < states.len()
        invariant
            i <= states.len(),
            forall|j: int| 0 <= j < i ==> (#[trigger] states@[j])@ != state@,
        decreases states.len() - i,
    {
        if states[i] == *state {
            return true;
        }
        i += 1;
    }
    false
}

/// `moves` lists the pours that can be made in `state`, each with the state
/// that it leads to, in the order in which they are tried, and leaves none
/// out.
pub open spec fn lists_moves(state: Seq<Seq<u32>>, moves: Seq<(Transfer, PuzzleState)>) -> bool {
    &&& forall|k: int|
        0 <= k < moves.len() ==> legal(state, (#[trigger] moves[k]).0) && moves[k].1@ == poured(
            state,
            moves[k].0,
        )
    &&& forall|j: int, k: int|
        0 <= j < k < moves.len() ==> tried_before((#[trigger] moves[j]).0, (#[trigger] moves[k]).0)
    &&& forall|t: Transfer| #[trigger]
        legal(state, t) ==> exists|k: int| 0 <= k < moves.len() && (#[trigger] moves[k]).0 == t
}

/// The pours of `moves`, without the states that they lead to.
spec fn transfers_of(moves: Seq<(Transfer, PuzzleState)>) -> Seq<Transfer> {
    Seq::new(moves.len(), |k: int| moves[k].0)
}

/// The pours of a list of moves are the pours that can be made.
proof fn lemma_moves_listed(state: Seq<Seq<u32>>, moves: Seq<(Transfer, PuzzleState)>)
    requires
        lists_moves(state, moves),
    ensures
        moves_of(state, transfers_of(moves)),
{
    let listed = transfers_of(moves);
    assert forall|t: Transfer| #[trigger] legal(state, t) implies exists|k: int|
        0 <= k < listed.len() && (#[trigger] listed[k]) == t by {
        let k = choose|k: int| 0 <= k < moves.len() && (#[trigger] moves[k]).0 == t;
        assert(listed[k] == t);
    }
    assert forall|j: int, k: int| 0 <= j < k < listed.len() implies tried_before(
        #[trigger] listed[j],
        #[trigger] listed[k],
    ) by {
        assert(tried_before(moves[j].0, moves[k].0));
    }
    assert forall|k: int| 0 <= k < listed.len() implies legal(state, #[trigger] listed[k]) by {
        assert(legal(state, moves[k].0));
    }
}

impl PuzzleState {
    /// Searches breadth-first for a way to a solved state. The node that is
    /// returned holds the first solution: a shortest one, and among the
    /// shortest the one that at each pour takes the first that is tried.
    /// `None` says that no sequence of pours solves the puzzle.
    pub fn solve(&self) -> (result: Option<PuzzleStateNode>)
        ensures
            match result {
                Some(node) => {
                    &&& is_first_solution(self@, node.transfers@)
                    &&& replay(self@, node.transfers@) == Some(node.state@)
                    &&& solved(node.state@)
                    &&& units(node.state@) == units(self@)
                },
                None => forall|path: Seq<Transfer>| !solves(self@, path),
            },
    {
        let mut explored_states: Vec<PuzzleState> = Vec::new();
        explored_states.push(self.clone());
        let mut queue: VecDeque<PuzzleStateNode> = VecDeque::new();
        queue.push_back(PuzzleStateNode { transfers: Vec::new(), state: self.clone() });
        let ghost mut paths: Seq<Seq<Transfer>> = seq![Seq::<Transfer>::empty()];
        let ghost mut head: int = 0;
        proof {
            lemma_search_start(self@);
        }
        loop
            invariant
                ready(self@, paths, head),
                explored_states@.len() == paths.len(),
                queue@.len() == paths.len() - head,
                forall|i: int|
                    0 <= i < paths.len() ==> replay(self@, #[trigger] paths[i]) == Some(
                        explored_states@[i]@,
                    ),
                forall|i: int|
                    0 <= i < queue@.len() ==> (#[trigger] queue@[i]).transfers@ == paths[head + i]
                        && queue@[i].state@ == explored_states@[head + i]@,
            decreases usize::MAX - explored_states.len(), queue.len(),
        {
            let ghost known = explored_states@.len();
            let node = match queue.pop_front() {
                Some(node) => node,
                None => {
                    proof {
                        lemma_search_exhausted(self@, paths);
                    }
                    return None;
                },
            };
            if node.state.is_solved() {
                proof {
                    lemma_front_solved(self@, paths, head);
                    lemma_replay_conserves_units(self@, paths[head]);
                }
                return Some(node);
            }
            let moves = node.state.possible_transfers();
            let ghost listed = moves@;
            let ghost tried = transfers_of(listed);
            proof {
                lemma_moves_listed(node.state@, listed);
            }
            for next in it: moves
                invariant
                    it.seq() == listed,
                    lists_moves(node.state@, listed),
                    moves_of(node.state@, tried),
                    tried == transfers_of(listed),
                    node.transfers@ == paths[head],
                    replay(self@, paths[head]) == Some(node.state@),
                    expanding(self@, paths, head, tried, it.index() as int),
                    explored_states@.len() == paths.len(),
                    explored_states@.len() >= known,
                    queue@.len() == paths.len() - head - 1,
                    forall|i: int|
                        0 <= i < paths.len() ==> replay(self@, #[trigger] paths[i]) == Some(
                            explored_states@[i]@,
                        ),
                    forall|i: int|
                        0 <= i < queue@.len() ==> (#[trigger] queue@[i]).transfers@ == paths[head
                            + 1 + i] && queue@[i].state@ == explored_states@[head + 1 + i]@,
            {
                let ghost k = it.index() as int;
                let (transfer, state) = next;
                if !contains_state(&explored_states, &state) {
                    proof {
                        lemma_add_move(self@, paths, head, tried, k);
                        paths = paths.push(paths[head].push(transfer));
                    }
                    explored_states.push(state.clone());
                    let mut transfers = node.transfers.clone();
                    transfers.push(transfer);
                    queue.push_back(PuzzleStateNode { transfers, state });
                } else {
                    proof {
                        let i = choose|i: int|
                            0 <= i < explored_states@.len() && (#[trigger] explored_states@[i])@
                                == state@;
                        assert(replay(self@, paths[i]) == Some(state@));
                    }
                }
            }
            proof {
                lemma_end_expansion(self@, paths, head, tried);
                head = head + 1;
            }
        }
    }

    /// Every pour that can be made in this state, with the state that it
    /// leads to. Sources are taken in ascending order, and for each source
    /// the destinations are.
    pub fn possible_transfers(&self) -> (moves: Vec<(Transfer, PuzzleState)>)
        ensures
            lists_moves(self@, moves@),
            solved(self@) ==> moves@.len() == 0,
    {
        let mut moves: Vec<(Transfer, PuzzleState)> = Vec::new();
        let tubes = self.0.len();
        let mut from_i: usize = 0;
        while from_i < tubes
            invariant
                tubes == self@.len(),
                from_i <= tubes,
                forall|k: int|
                    0 <= k < moves.len() ==> legal(self@, (#[trigger] moves[k]).0) && moves[k].1@
                        == poured(self@, moves[k].0),
                forall|j: int, k: int|
                    0 <= j < k < moves.len() ==> tried_before(
                        (#[trigger] moves[j]).0,
                        (#[trigger] moves[k]).0,
                    ),
                forall|k: int| 0 <= k < moves.len() ==> (#[trigger] moves[k]).0.from < from_i,
                forall|t: Transfer| #[trigger]
                    legal(self@, t) && t.from < from_i ==> exists|k: int|
                        0 <= k < moves.len() && (#[trigger] moves[k]).0 == t,
            decreases tubes - from_i,
        {
            let mut to_i: usize = 0;
            while to_i < tubes
                invariant
                    tubes == self@.len(),
                    from_i < tubes,
                    to_i <= tubes,
                    forall|k: int|
                        0 <= k < moves.len() ==> legal(self@, (#[trigger] moves[k]).0)
                            && moves[k].1@ == poured(self@, moves[k].0),
                    forall|j: int, k: int|
                        0 <= j < k < moves.len() ==> tried_before(
                            (#[trigger] moves[j]).0,
                            (#[trigger] moves[k]).0,
                        ),
                    forall|k: int|
                        0 <= k < moves.len() ==> tried_before(
                            (#[trigger] moves[k]).0,
                            Transfer { from: from_i, to: to_i },
                        ),
                    forall|t: Transfer| #[trigger]
                        legal(self@, t) && tried_before(t, Transfer { from: from_i, to: to_i })
                            ==> exists|k: int|
                            0 <= k < moves.len() && (#[trigger] moves[k]).0 == t,
                decreases tubes - to_i,
            {
                if from_i != to_i {
                    let transfer = Transfer { from: from_i, to: to_i };
                    let ghost earlier = moves@;
                    match transfer.try_perform(self) {
                        Ok(state) => {
                            moves.push((transfer, state));
                            assert forall|t: Transfer| #[trigger]
                                legal(self@, t) && tried_before(
                                    t,
                                    Transfer { from: from_i, to: (to_i + 1) as usize },
                                ) implies exists|k: int|
                                0 <= k < moves.len() && (#[trigger] moves[k]).0 == t by {
                                if t == transfer {
                                    assert(moves[earlier.len() as int].0 == t);
                                } else {
                                    let k = choose|k: int|
                                        0 <= k < earlier.len() && (#[trigger] earlier[k]).0 == t;
                                    assert(moves[k].0 == t);
                                }
                            }
                        },
                        Err(_) => {},
                    }
                }
                to_i += 1;
            }
            from_i += 1;
        }
        proof {
            if solved(self@) && moves@.len() > 0 {
                lemma_solved_state_refuses_every_pour(self@, moves[0].0);
            }
        }
        moves
    }

    /// Whether every tube is empty or filled to capacity with one color.
    pub fn is_solved(&self) -> (done: bool)
        ensures
            done == solved(self@),
    {
        let mut i: usize = 0;
        while i < self.0.len()
            invariant
                i <= self.0.len(),
                forall|j: int| 0 <= j < i ==> tube_solved(#[trigger] self@[j]),
            decreases self.0.len() - i,
        {
            if !self.0[i].is_solved() {
                assert(!tube_solved(self@[i as int]));
                return false;
            }
            i += 1;
        }
        true
    }
}

/// A pour from the tube with index `from` onto the tube with index `to`.
#[derive(Copy, Clone, Debug, PartialEq, Eq, Structural)]
pub struct Transfer {
    pub from: usize,
    pub to: usize,
}

impl Default for Transfer {
    fn default() -> (t: Self)
        ensures
            t == (Transfer { from: 0, to: 0 }),
    {
        Transfer { from: 0, to: 0 }
    }
}

/// Why a pour was not made. Where several reasons hold, the first in this
/// order is given.
#[derive(Copy, Clone, Debug, PartialEq, Eq, Structural)]
pub enum TransferError {
    /// Source and destination are the same tube.
    SameTube,
    /// The destination tube is full.
    DestinationFull,
    /// The source tube is empty.
    SourceEmpty,
    /// The source tube is filled with one color already.
    SourceAlreadySolved,
    /// The destination's top color differs from the source's, or the run
    /// does not fit on the destination.
    ColorMismatchOrOverflow,
}

impl Transfer {
    /// Pours the whole top run of tube `from` onto tube `to`, giving the new
    /// state, or says why the pour cannot be made. `state` is left as it is.
    /// Both tubes must exist, unless `from` and `to` are the same.
    pub fn try_perform(&self, state: &PuzzleState) -> (result: Result<PuzzleState, TransferError>)
        requires
            self.from != self.to ==> in_range(state@, *self),
        ensures
            match result {
                Ok(next) => {
                    &&& legal(state@, *self)
                    &&& next@ == poured(state@, *self)
                    &&& next@.len() == state@.len()
                    &&& units(next@) == units(state@)
                    &&& within_capacity(state@) ==> within_capacity(next@)
                },
                Err(reason) => rejection(state@, *self) == Some(reason),
            },
    {
        if self.from == self.to {
            return Err(TransferError::SameTube);
        }
        let from = &state.0[self.from];
        let to = &state.0[self.to];
        if to.is_full() {
            return Err(TransferError::DestinationFull);
        }
        if from.0.len() == 0 {
            return Err(TransferError::SourceEmpty);
        }
        let run = from.count_top_color();
        if run == CAPACITY {
            return Err(TransferError::SourceAlreadySolved);
        }
        if to.0.len() != 0 {
            let same_color = from.0[from.0.len() - 1] == to.0[to.0.len() - 1];
            if !same_color || run > CAPACITY || to.0.len() > CAPACITY - run {
                return Err(TransferError::ColorMismatchOrOverflow);
            }
        }
        let mut source = from.clone();
        let mut dest = to.clone();
        let mut moved: usize = 0;
        while moved < run
            invariant
                moved <= run <= from@.len(),
                is_top_run(from@, run as nat),
                source@ == from@.take(from@.len() - moved),
                dest@ == to@ + from@.skip(from@.len() - moved),
            decreases run - moved,
        {
            let unit = source.0.pop_back().unwrap();
            dest.0.push_back(unit);
            moved += 1;
        }
        let mut next = state.clone();
        next.0[self.from] = source;
        next.0[self.to] = dest;
        proof {
            assert(next@ =~= poured(state@, *self));
            lemma_pour_conserves_units(state@, *self);
        }
        Ok(next)
    }
}

} // verus!
