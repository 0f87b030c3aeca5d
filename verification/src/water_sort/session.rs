use vstd::prelude::*;
use crate::water_sort::game::{GameState, complete_bottle, pour_ok, poured, pour_amount, solved, uviews};
use crate::water_sort::solver::{solve as search, replay, solves, first_quick_pour, no_quick_pour, Move, MAX_STATES};
use crate::water_sort::search::gives_up;

verus! {

/// What a game session holds, as values: the bottles now, the moves made,
/// the number of colours, the bottles it started from, and the states that
/// undo goes back to. The starting state and every kept state have the same
/// number of colours as the current one (part of the session's
/// well-formedness), so it is held once.
pub struct SessionView {
    pub current: Seq<Seq<u8>>,
    pub moves: int,
    pub num_colors: int,
    pub start: Seq<Seq<u8>>,
    pub past: Seq<(Seq<Seq<u8>>, int)>,
}

/// The session after a pour: the state before is kept for undo. A pour that
/// is not allowed changes nothing.
pub open spec fn pour_view(v: SessionView, src: int, dst: int) -> SessionView {
    if pour_ok(v.current, src, dst) {
        SessionView {
            current: poured(v.current, src, dst),
            moves: v.moves + 1,
            past: v.past.push((v.current, v.moves)),
            ..v
        }
    } else {
        v
    }
}

/// The session after an undo: back to the last state kept, if any.
pub open spec fn undo_view(v: SessionView) -> SessionView {
    if v.past.len() == 0 {
        v
    } else {
        SessionView {
            current: v.past.last().0,
            moves: v.past.last().1,
            past: v.past.drop_last(),
            ..v
        }
    }
}

/// The session after a reset: the starting bottles, no moves, nothing to undo.
pub open spec fn reset_view(v: SessionView) -> SessionView {
    SessionView { current: v.start, moves: 0, past: Seq::empty(), ..v }
}

/// A water-sort game in play: the starting puzzle, the current state and
/// the states before each pour, for undo.
pub struct WaterSortGame {
    initial: GameState,
    state: GameState,
    history: Vec<GameState>,
}

impl View for WaterSortGame {
    type V = SessionView;

    closed spec fn view(&self) -> SessionView {
        SessionView {
            current: self.state.view_bottles(),
            moves: self.state.moves as int,
            num_colors: self.state.num_colors as int,
            start: self.initial.view_bottles(),
            past: Seq::new(
                self.history@.len(),
                |i: int| (self.history@[i].view_bottles(), self.history@[i].moves as int),
            ),
        }
    }
}

impl WaterSortGame {
    /// Well-formed: the move count is the number of states kept for undo,
    /// and the i-th kept state had made i moves; all have the same colours.
    pub closed spec fn wf(&self) -> bool {
        &&& self.initial.moves == 0
        &&& self.initial.num_colors == self.state.num_colors
        &&& self.state.moves == self.history@.len()
        &&& forall|i: int|
            0 <= i < self.history@.len() ==> #[trigger] self.history@[i].moves == i
                && self.history@[i].num_colors == self.state.num_colors
    }

    /// A game that starts from `puzzle`, with its move count set to zero.
    pub fn from_state(puzzle: GameState) -> (g: Self)
        ensures
            g.wf(),
            g@.current == puzzle.view_bottles(),
            g@.start == puzzle.view_bottles(),
            g@.moves == 0,
            g@.num_colors == puzzle.num_colors,
            g@.past.len() == 0,
    {
        let mut initial = puzzle.duplicate();
        initial.moves = 0;
        let state = initial.duplicate();
        let g = WaterSortGame { initial, state, history: Vec::new() };
        assert(g@.past =~= Seq::<(Seq<Seq<u8>>, int)>::empty());
        g
    }

    /// Number of bottles.
    pub fn num_bottles(&self) -> (n: usize)
        ensures
            n == self@.current.len(),
    {
        self.state.bottles.len()
    }

    /// Units in bottle `i`.
    pub fn tube_len(&self, i: usize) -> (n: usize)
        requires
            i < self@.current.len(),
        ensures
            n == self@.current[i as int].len(),
    {
        self.state.bottles[i].len()
    }

    /// True iff bottle `i` is full and of one colour.
    pub fn tube_complete(&self, i: usize) -> (c: bool)
        requires
            i < self@.current.len(),
        ensures
            c == complete_bottle(self@.current[i as int]),
    {
        self.state.bottles[i].is_complete()
    }

    /// Number of colours in the puzzle.
    pub fn num_colors(&self) -> (n: usize)
        ensures
            n == self@.num_colors,
    {
        self.state.num_colors
    }

    /// The units of each bottle, bottom first.
    pub fn bottles(&self) -> (b: Vec<Vec<u8>>)
        ensures
            uviews(b@) == self@.current,
    {
        let mut out: Vec<Vec<u8>> = Vec::new();
        let mut i: usize = 0;
        while i < self.state.bottles.len()
            invariant
                i <= self.state.bottles@.len(),
                out@.len() == i,
                forall|j: int| 0 <= j < i ==> #[trigger] out@[j]@ == self.state.bottles@[j].units@,
            decreases self.state.bottles@.len() - i,
        {
            out.push(self.state.bottles[i].duplicate().units);
            i += 1;
        }
        assert(uviews(out@) =~= self@.current);
        out
    }

    /// Moves made since the start (an undo takes one back).
    pub fn move_count(&self) -> (n: u32)
        ensures
            n == self@.moves,
    {
        self.state.moves
    }

    /// True iff a pour from `src` to `dst` is allowed now.
    pub fn can_pour(&self, src: usize, dst: usize) -> (ok: bool)
        ensures
            ok == pour_ok(self@.current, src as int, dst as int),
    {
        self.state.can_pour(src, dst)
    }

    /// Pours from `src` to `dst` when allowed, keeping the state before for
    /// undo. Returns the units poured, 0 when the pour is not allowed.
    pub fn pour(&mut self, src: usize, dst: usize) -> (n: usize)
        requires
            old(self).wf(),
            pour_ok(old(self)@.current, src as int, dst as int) ==> old(self)@.moves < u32::MAX,
        ensures
            final(self).wf(),
            final(self)@ == pour_view(old(self)@, src as int, dst as int),
            n == if pour_ok(old(self)@.current, src as int, dst as int) {
                pour_amount(old(self)@.current, src as int, dst as int)
            } else {
                0
            },
    {
        if !self.state.can_pour(src, dst) {
            return 0;
        }
        let ghost v0 = self@;
        self.history.push(self.state.duplicate());
        let n = self.state.pour(src, dst);
        assert(self@.past =~= v0.past.push((v0.current, v0.moves)));
        n
    }

    /// Goes back to the state before the last pour. False when there is
    /// nothing to undo.
    pub fn undo(&mut self) -> (done: bool)
        requires
            old(self).wf(),
        ensures
            final(self).wf(),
            done == (old(self)@.past.len() > 0),
            final(self)@ == undo_view(old(self)@),
    {
        let ghost v0 = self@;
        match self.history.pop() {
            Some(prev) => {
                self.state = prev;
                assert(self@.past =~= v0.past.drop_last());
                true
            },
            None => false,
        }
    }

    /// True iff every bottle is empty or complete.
    pub fn is_solved(&self) -> (s: bool)
        ensures
            s == solved(self@.current),
    {
        self.state.is_solved()
    }

    /// Back to the starting bottles, with nothing to undo.
    pub fn reset(&mut self)
        requires
            old(self).wf(),
        ensures
            final(self).wf(),
            final(self)@ == reset_view(old(self)@),
    {
        self.state = self.initial.duplicate();
        self.history = Vec::new();
        assert(self@.past =~= Seq::<(Seq<Seq<u8>>, int)>::empty());
    }

    /// The first pour of a shortest solution, as the search finds it, from
    /// the current state; None when the puzzle is already solved, when no
    /// sequence of pours solves it, or when the search gives up (see
    /// `solver::solve`). When a single pour
    /// solves the puzzle, the hint is the first such pour.
    pub fn hint(&self) -> (h: Option<(usize, usize)>)
        ensures
            solved(self@.current) ==> h is None,
            !solved(self@.current) && !no_quick_pour(self@.current) ==> (h matches Some((s, d)) && first_quick_pour(
                self@.current,
                s as int,
                d as int,
            )),
            h matches Some((s, d)) ==> {
                &&& pour_ok(self@.current, s as int, d as int)
                &&& exists|ms: Seq<Move>|
                    solves(self@.current, ms) && ms.len() > 0 && #[trigger] ms[0] == (Move { src: s, dst: d })
                    && forall|ms2: Seq<Move>| #[trigger] solves(self@.current, ms2) ==> ms.len() <= ms2.len()
            },
            h is None && !solved(self@.current) ==> !(exists|ms: Seq<Move>| #[trigger] solves(self@.current, ms))
                || gives_up(self@.current, MAX_STATES as int),
    {
        match search(&self.state) {
            Some(moves) => {
                if moves.len() > 0 {
                    let m = moves[0];
                    proof {
                        lemma_replay_first(self@.current, moves@);
                    }
                    Some((m.src, m.dst))
                } else {
                    None
                }
            },
            None => None,
        }
    }

    /// A shortest solution from the current state, as the search finds it.
    pub fn solve(&self) -> (r: Option<Vec<Move>>)
        ensures
            r matches Some(ms) ==> solves(self@.current, ms@),
            r matches Some(ms) ==> forall|ms2: Seq<Move>| #[trigger] solves(self@.current, ms2) ==> ms@.len() <= ms2.len(),
            r is None ==> !(exists|ms: Seq<Move>| #[trigger] solves(self@.current, ms)) || gives_up(
                self@.current,
                MAX_STATES as int,
            ),
            solved(self@.current) ==> (r matches Some(ms) && ms@.len() == 0),
    {
        search(&self.state)
    }

    /// How many pours can be undone.
    pub fn undo_count(&self) -> (n: usize)
        ensures
            n == self@.past.len(),
    {
        self.history.len()
    }
}

/// A move list that replays has a first move that is allowed at the start.
proof fn lemma_replay_first(m: Seq<Seq<u8>>, moves: Seq<Move>)
    requires
        moves.len() > 0,
        replay(m, moves) is Some,
    ensures
        pour_ok(m, moves[0].src as int, moves[0].dst as int),
    decreases moves.len(),
{
    if moves.len() == 1 {
        assert(moves.drop_last() =~= Seq::<Move>::empty());
    } else {
        assert(moves.drop_last()[0] == moves[0]);
        lemma_replay_first(m, moves.drop_last());
    }
}

/// Undo right after an allowed pour gives back the session as it was.
pub proof fn lemma_undo_after_pour(v: SessionView, src: int, dst: int)
    requires
        pour_ok(v.current, src, dst),
    ensures
        undo_view(pour_view(v, src, dst)) == v,
{
    assert(v.past.push((v.current, v.moves)).drop_last() =~= v.past);
}

} // verus!
