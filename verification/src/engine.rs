use crate::board::Board;
use crate::board::Colour;
use crate::board::count_of;
use crate::board::is_ply_of;
use crate::board::lemma_legal_moves_sound;
use crate::board::lemma_reachable_refl;
use crate::board::lemma_reachable_step;
use crate::board::move_is_flanking;
use crate::board::reachable_by_plies;
use crate::player::Player;
use vstd::prelude::*;

verus! {

/// The turn engine: alternates the two colour-bound strategies over a board,
/// starting with Dark, until neither colour had a legal move on its most
/// recent turn (double-pass termination).
pub struct Engine<L: Player, D: Player> {
    pub light_player: L,
    pub dark_player: D,
    pub turn: Colour,
    pub board: Board,
    pub dark_move: bool,
    pub light_move: bool,
}

impl<L: Player, D: Player> Engine<L, D> {
    pub open spec fn wf(self) -> bool {
        self.board.wf()
    }

    /// Whether the given colour had a legal move on its most recent turn.
    pub open spec fn flag_of(self, c: Colour) -> bool {
        match c {
            Colour::Light => self.light_move,
            Colour::Dark => self.dark_move,
        }
    }

    /// Whether the strategy whose turn it is may decline an offered move.
    pub open spec fn mover_may_decline(self) -> bool {
        match self.turn {
            Colour::Light => L::may_decline(),
            Colour::Dark => D::may_decline(),
        }
    }

    /// How many colours had a move on their most recent turn.
    pub open spec fn flags_count(self) -> int {
        (if self.dark_move {
            1int
        } else {
            0int
        }) + (if self.light_move {
            1int
        } else {
            0int
        })
    }

    /// One while the mover's own flag is already down: such a turn either ends
    /// the game or hands the turn to a colour whose flag is still up, whose
    /// gauge is zero.
    pub open spec fn pass_gauge(self) -> int {
        if self.flag_of(self.turn) {
            0int
        } else {
            1int
        }
    }

    pub fn new(light_player: L, dark_player: D, board: Board) -> (e: Engine<L, D>)
        requires
            board.wf(),
        ensures
            e.wf(),
            e.board == board,
            e.turn == Colour::Dark,
            e.dark_move,
            e.light_move,
    {
        Engine {
            board,
            light_player,
            dark_player,
            turn: Colour::Dark,
            dark_move: true,
            light_move: true,
        }
    }

    pub fn get_board(&self) -> (b: &Board)
        ensures
            *b == self.board,
    {
        &self.board
    }

    /// One ply: compute the mover's legal moves; with none, record the pass;
    /// otherwise offer them to the mover's strategy and apply its choice (a
    /// strategy that declines leaves the board as it is, yet still counts as
    /// having had a move). Then the turn swaps to the other colour.
    fn take_turn(&mut self) -> (valid_move: bool)
        requires
            old(self).wf(),
        ensures
            final(self).wf(),
            valid_move == (old(self).board.all_moves(old(self).turn).len() > 0),
            final(self).turn == old(self).turn.spec_opposite(),
            final(self).flag_of(old(self).turn) == valid_move,
            final(self).flag_of(old(self).turn.spec_opposite()) == old(self).flag_of(
                old(self).turn.spec_opposite(),
            ),
            !valid_move ==> final(self).board == old(self).board,
            final(self).board == old(self).board || count_of(final(self).board@, None) == count_of(
                old(self).board@,
                None,
            ) - 1,
            (valid_move && !old(self).mover_may_decline()) ==> count_of(
                final(self).board@,
                None,
            ) == count_of(old(self).board@, None) - 1,
            valid_move ==> (final(self).board == old(self).board || (exists|i: int|
                #![trigger old(self).board.all_moves(old(self).turn)[i]]
                0 <= i < old(self).board.all_moves(old(self).turn).len() && final(self).board@
                    == old(self).board.spec_apply(old(self).board.all_moves(old(self).turn)[i]))),
            (valid_move && !old(self).mover_may_decline()) ==> (exists|i: int|
                #![trigger old(self).board.all_moves(old(self).turn)[i]]
                0 <= i < old(self).board.all_moves(old(self).turn).len() && final(self).board@
                    == old(self).board.spec_apply(old(self).board.all_moves(old(self).turn)[i])),
            is_ply_of(old(self).board, final(self).board),
    {
        let moves = self.board.get_moves(self.turn);
        let valid_move = moves.len() > 0;
        if valid_move {
            proof {
                lemma_legal_moves_sound(self.board, self.turn);
            }
            let mov = match self.turn {
                Colour::Light => self.light_player.get_move(&self.board, &moves),
                Colour::Dark => self.dark_player.get_move(&self.board, &moves),
            };
            match mov {
                Some(m) => {
                    let ghost b0 = self.board;
                    let ghost t0 = self.turn;
                    let ghost i = choose|i: int| 0 <= i < moves@.len() && moves@[i] == m;
                    proof {
                        assert(move_is_flanking(
                            self.board,
                            self.turn,
                            self.board.all_moves(self.turn)[i],
                        ));
                    }
                    self.board.apply_move(m);
                    proof {
                        assert(0 <= i < b0.all_moves(t0).len() && self.board@ == b0.spec_apply(
                            b0.all_moves(t0)[i],
                        ));
                        assert(is_ply_of(b0, self.board));
                    }
                },
                None => {},
            }
        }
        match self.turn {
            Colour::Light => {
                self.light_move = valid_move;
                self.turn = Colour::Dark;
            },
            Colour::Dark => {
                self.dark_move = valid_move;
                self.turn = Colour::Light;
            },
        }
        valid_move
    }

    /// Play plies until neither colour had a legal move on its latest turn.
    /// Each applied move claims an empty cell and a bare pass lowers a flag, so
    /// a game among strategies that never decline runs to completion. The board
    /// evolves only by legal plies; a board on which neither colour has a legal
    /// move is never touched; and when a run that started with both flags up
    /// ends, the final board offers no legal move to either colour.
    pub fn run_to_end(&mut self)
        requires
            old(self).wf(),
            !L::may_decline(),
            !D::may_decline(),
        ensures
            final(self).wf(),
            !final(self).dark_move && !final(self).light_move,
            (old(self).board.all_moves(Colour::Light).len() == 0 && old(self).board.all_moves(
                Colour::Dark,
            ).len() == 0) ==> final(self).board == old(self).board,
            reachable_by_plies(old(self).board, final(self).board),
            (old(self).dark_move && old(self).light_move) ==> (final(self).board.all_moves(
                Colour::Light,
            ).len() == 0 && final(self).board.all_moves(Colour::Dark).len() == 0),
    {
        proof {
            lemma_reachable_refl(old(self).board);
        }
        loop
            invariant
                self.wf(),
                !L::may_decline(),
                !D::may_decline(),
                (old(self).board.all_moves(Colour::Light).len() == 0 && old(self).board.all_moves(
                    Colour::Dark,
                ).len() == 0) ==> self.board == old(self).board,
                reachable_by_plies(old(self).board, self.board),
                !self.flag_of(self.turn.spec_opposite()) ==> (self.board.all_moves(
                    self.turn.spec_opposite(),
                ).len() == 0 || *self == *old(self)),
            ensures
                self.wf(),
                !self.dark_move && !self.light_move,
                (old(self).board.all_moves(Colour::Light).len() == 0 && old(self).board.all_moves(
                    Colour::Dark,
                ).len() == 0) ==> self.board == old(self).board,
                reachable_by_plies(old(self).board, self.board),
                (old(self).dark_move && old(self).light_move) ==> (self.board.all_moves(
                    Colour::Light,
                ).len() == 0 && self.board.all_moves(Colour::Dark).len() == 0),
            decreases count_of(self.board@, None), self.flags_count(), self.pass_gauge(),
        {
            let ghost pre = *self;
            let v = self.take_turn();
            proof {
                lemma_reachable_step(old(self).board, pre.board, self.board);
            }
            if !self.dark_move && !self.light_move {
                proof {
                    if old(self).dark_move && old(self).light_move {
                        assert(!v);
                        assert(self.board == pre.board);
                        assert(pre.board.all_moves(pre.turn).len() == 0);
                        assert(self.flag_of(pre.turn.spec_opposite()) == pre.flag_of(
                            pre.turn.spec_opposite(),
                        ));
                        assert(!pre.flag_of(pre.turn.spec_opposite()));
                        if pre == *old(self) {
                            assert(old(self).flag_of(old(self).turn.spec_opposite()));
                            assert(false);
                        }
                        assert(pre.board.all_moves(pre.turn.spec_opposite()).len() == 0);
                        assert(pre.turn == Colour::Light || pre.turn == Colour::Dark);
                    }
                }
                break ;
            }
            proof {
                if !v && pre.flag_of(pre.turn) {
                    assert(self.flags_count() < pre.flags_count());
                }
                if !v && !pre.flag_of(pre.turn) {
                    assert(self.flags_count() == pre.flags_count());
                    assert(self.flag_of(self.turn));
                    assert(self.pass_gauge() < pre.pass_gauge());
                }
            }
        }
    }
}

} // verus!
