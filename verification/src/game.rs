//! The game layer: one position, one evaluator, one searcher, and the
//! command surface a caller drives a game through.

use vstd::prelude::*;
use vstd::string::StrSliceExecFns;
use crate::attacks::in_check_spec;
use crate::evaluation::eval_spec;
use crate::evaluation::Evaluator;
use crate::evaluation::SimpleEvaluator;
use crate::fen::fen_chars;
use crate::fen::parse_fen;
use crate::legal::counters_ok;
use crate::legal::legal_move_ok;
use crate::legal::lemma_pseudo_make_safe;
use crate::model::board_ok;
use crate::model::make_safe;
use crate::model::spec_make;
use crate::model::BoardModel;
use crate::position::start_model;
use crate::position::BitboardBoard;
use crate::search::AlphaBetaSearcher;
use crate::search::Searcher;
use crate::search::SEARCH_DEPTH;
use crate::types::flip_color;
use crate::types::spec_square_of;
use crate::types::GameState;
use crate::types::Move;
use crate::types::Piece;
use crate::types::Square;

verus! {

/// The model after a move is applied and the turn passes: `spec_make`
/// followed by the side flip.
pub open spec fn spec_apply(m: BoardModel, mv: Move) -> BoardModel {
    let n = spec_make(m, mv);
    BoardModel { side: flip_color(n.side), ..n }
}

/// The terminal classification: in progress while a legal move exists,
/// else checkmate when the side to move stands in check, else stalemate.
pub open spec fn game_state_spec(m: BoardModel) -> GameState {
    if exists|mv: Move| legal_move_ok(m, mv) {
        GameState::InProgress
    } else if in_check_spec(m, m.side) {
        GameState::Checkmate
    } else {
        GameState::Stalemate
    }
}

/// A position together with the strategies that evaluate it and search it.
pub struct GameManager {
    board: BitboardBoard,
    evaluator: SimpleEvaluator,
    searcher: AlphaBetaSearcher,
}

impl View for GameManager {
    type V = BoardModel;

    closed spec fn view(&self) -> BoardModel {
        self.board@
    }
}

impl GameManager {
    /// A game at the standard starting position.
    pub fn new() -> (r: Self)
        ensures
            r@ == start_model(),
            board_ok(r@),
    {
        Self {
            board: BitboardBoard::new_startpos(),
            evaluator: SimpleEvaluator,
            searcher: AlphaBetaSearcher,
        }
    }

    /// The position being played.
    pub fn get_board(&self) -> (r: &BitboardBoard)
        ensures
            r@ == self@,
    {
        &self.board
    }

    /// The canonical record of the position.
    pub fn get_fen(&self) -> (r: String)
        requires
            board_ok(self@),
        ensures
            r@ == fen_chars(self@),
    {
        self.board.to_fen()
    }

    /// Replaces the position with the one a record describes; a malformed
    /// record is rejected and the position stands.
    pub fn load_from_fen(&mut self, fen: &str) -> (r: bool)
        requires
            board_ok(old(self)@),
        ensures
            r == (parse_fen(fen@) is Some),
            r ==> final(self)@ == parse_fen(fen@).unwrap(),
            !r ==> final(self)@ == old(self)@,
            board_ok(final(self)@),
    {
        self.board.load_fen(fen)
    }

    /// The static score of the position, for the side to move.
    pub fn get_evaluation(&self) -> (r: i32)
        requires
            board_ok(self@),
        ensures
            r == eval_spec(self@),
    {
        self.evaluator.evaluate(&self.board)
    }

    /// The legal moves grouped by the moving piece and its origin square:
    /// each group is nonempty with a distinct key, holds exactly the legal
    /// moves of that piece from that square, and no move is missing.
    #[verifier::rlimit(100)]
    #[verifier::spinoff_prover]
    pub fn get_legal_moves_grouped(&self) -> (r: Vec<((Piece, Square), Vec<Move>)>)
        requires
            board_ok(self@),
            counters_ok(self@),
        ensures
            forall|g: int, j: int|
                0 <= g < r@.len() && 0 <= j < r@[g].1@.len() ==> legal_move_ok(
                    self@,
                    #[trigger] r@[g].1@[j],
                ) && r@[g].1@[j].piece == r@[g].0.0 && r@[g].1@[j].from == r@[g].0.1,
            forall|mv: Move|
                legal_move_ok(self@, mv) ==> exists|g: int, j: int|
                    0 <= g < r@.len() && 0 <= j < r@[g].1@.len() && #[trigger] r@[g].1@[j] == mv,
            forall|g: int| 0 <= g < r@.len() ==> (#[trigger] r@[g]).1@.len() > 0,
            forall|g: int, j: int|
                0 <= g < r@.len() && 0 <= j < r@[g].1@.len() ==> (forall|j2: int|
                    0 <= j2 < j ==> (#[trigger] r@[g].1@[j]) != r@[g].1@[j2]),
            forall|g1: int, g2: int|
                0 <= g1 < g2 < r@.len() ==> (#[trigger] r@[g1]).0 != (#[trigger] r@[g2]).0,
    {
        let ghost m = self@;
        let moves = self.board.generate_moves();
        let mut out: Vec<((Piece, Square), Vec<Move>)> = Vec::new();
        let ghost mut creators: Seq<int> = Seq::empty();
        let mut i: usize = 0;
        while i < moves.len()
            invariant
                0 <= i <= moves@.len(),
                forall|mv: Move| #[trigger] moves@.contains(mv) <==> legal_move_ok(m, mv),
                moves@.no_duplicates(),
                forall|g: int, j: int|
                    0 <= g < out@.len() && 0 <= j < out@[g].1@.len() ==> moves@.contains(
                        #[trigger] out@[g].1@[j],
                    ) && out@[g].1@[j].piece == out@[g].0.0 && out@[g].1@[j].from == out@[g].0.1,
                forall|g: int| 0 <= g < out@.len() ==> (#[trigger] out@[g]).1@.len() > 0,
                forall|g: int, j: int|
                    0 <= g < out@.len() && 0 <= j < out@[g].1@.len() ==> (forall|j2: int|
                        0 <= j2 < j ==> (#[trigger] out@[g].1@[j]) != out@[g].1@[j2]),
                forall|g: int, k: int|
                    #![trigger out@[g], moves@[k]]
                    0 <= g < out@.len() && 0 <= k < moves@.len() && moves@[k].piece == out@[g].0.0
                        && moves@[k].from == out@[g].0.1 ==> exists|j: int|
                        0 <= j < out@[g].1@.len() && #[trigger] out@[g].1@[j] == moves@[k],
                creators.len() == out@.len(),
                forall|g: int|
                    0 <= g < out@.len() ==> 0 <= #[trigger] creators[g] < i && moves@[creators[g]].piece
                        == out@[g].0.0 && moves@[creators[g]].from == out@[g].0.1,
                forall|g: int, q: int|
                    0 <= g < out@.len() && 0 <= q < #[trigger] creators[g] ==> !(
                    (#[trigger] moves@[q]).piece == out@[g].0.0 && moves@[q].from == out@[g].0.1),
                forall|g1: int, g2: int|
                    0 <= g1 < g2 < out@.len() ==> #[trigger] creators[g1] < #[trigger] creators[g2],
                forall|k: int|
                    #![trigger moves@[k]]
                    0 <= k < i ==> exists|g: int, j: int|
                        0 <= g < out@.len() && 0 <= j < out@[g].1@.len() && (#[trigger] out@[g].1@[j])
                            == moves@[k],
            decreases moves@.len() - i,
        {
            let mv = moves[i];
            let mut seen = false;
            let mut p: usize = 0;
            while p < i
                invariant
                    0 <= p <= i < moves@.len(),
                    mv == moves@[i as int],
                    seen == exists|q: int|
                        0 <= q < p && (#[trigger] moves@[q]).piece == moves@[i as int].piece
                            && moves@[q].from == moves@[i as int].from,
                decreases i - p,
            {
                let prev = moves[p];
                if prev.piece.color == mv.piece.color && prev.piece.kind == mv.piece.kind
                    && prev.from.0 == mv.from.0 {
                    proof {
                        assert(moves@[p as int].piece == moves@[i as int].piece && moves@[p as int].from
                            == moves@[i as int].from);
                    }
                    seen = true;
                }
                p = p + 1;
            }
            if !seen {
                let mut group: Vec<Move> = Vec::new();
                let mut q: usize = 0;
                while q < moves.len()
                    invariant
                        0 <= q <= moves@.len(),
                        moves@.no_duplicates(),
                        0 <= i < moves@.len(),
                        mv == moves@[i as int],
                        forall|j: int|
                            0 <= j < group@.len() ==> moves@.contains(#[trigger] group@[j])
                                && group@[j].piece == mv.piece && group@[j].from == mv.from,
                        forall|k: int|
                            0 <= k < q && (#[trigger] moves@[k]).piece == mv.piece && moves@[k].from
                                == mv.from ==> exists|j: int|
                                0 <= j < group@.len() && #[trigger] group@[j] == moves@[k],
                        forall|j: int, j2: int|
                            0 <= j2 < j < group@.len() ==> (#[trigger] group@[j]) != (
                        #[trigger] group@[j2]),
                        forall|j: int|
                            0 <= j < group@.len() ==> exists|k: int|
                                0 <= k < q && #[trigger] group@[j] == moves@[k],
                        group@.len() <= q,
                    decreases moves@.len() - q,
                {
                    let cand = moves[q];
                    if cand.piece.color == mv.piece.color && cand.piece.kind == mv.piece.kind
                        && cand.from.0 == mv.from.0 {
                        let ghost before_g = group@;
                        group.push(cand);
                        proof {
                            assert(moves@[q as int] == cand);
                            assert(moves@.contains(cand));
                            assert forall|j: int, j2: int|
                                0 <= j2 < j < group@.len() implies (#[trigger] group@[j]) != (
                            #[trigger] group@[j2]) by {
                                if j == group@.len() - 1 {
                                    assert(group@[j2] == before_g[j2]);
                                    if group@[j] == group@[j2] {
                                        let k2 = choose|k2: int|
                                            0 <= k2 < q && #[trigger] before_g[j2] == moves@[k2];
                                        assert(moves@[k2] == moves@[q as int]);
                                        assert(false);
                                    }
                                } else {
                                    assert(group@[j] == before_g[j] && group@[j2] == before_g[j2]);
                                }
                            }
                            assert forall|k: int|
                                0 <= k < q + 1 && (#[trigger] moves@[k]).piece == mv.piece
                                    && moves@[k].from == mv.from implies exists|j: int|
                                0 <= j < group@.len() && #[trigger] group@[j] == moves@[k] by {
                                if k == q as int {
                                    assert(group@[group@.len() - 1] == moves@[k]);
                                } else {
                                    let j = choose|j: int|
                                        0 <= j < before_g.len() && #[trigger] before_g[j]
                                            == moves@[k];
                                    assert(group@[j] == moves@[k]);
                                }
                            }
                            assert forall|j: int|
                                0 <= j < group@.len() implies exists|k: int|
                                0 <= k < q + 1 && #[trigger] group@[j] == moves@[k] by {
                                if j == group@.len() - 1 {
                                    assert(group@[j] == moves@[q as int]);
                                } else {
                                    let k = choose|k: int|
                                        0 <= k < q && #[trigger] before_g[j] == moves@[k];
                                    assert(group@[j] == moves@[k]);
                                }
                            }
                        }
                    }
                    q = q + 1;
                }
                proof {
                    assert(group@.len() > 0) by {
                        assert(moves@[i as int].piece == mv.piece && moves@[i as int].from
                            == mv.from);
                    }
                }
                let ghost before_out = out@;
                let ghost before_creators = creators;
                out.push(((mv.piece, mv.from), group));
                proof {
                    creators = creators.push(i as int);
                    assert(out@[out@.len() - 1].1@.len() > 0);
                    assert forall|g: int|
                        0 <= g < out@.len() implies 0 <= #[trigger] creators[g] < i + 1
                        && moves@[creators[g]].piece == out@[g].0.0 && moves@[creators[g]].from
                        == out@[g].0.1 by {
                        if g < before_out.len() {
                            assert(creators[g] == before_creators[g]);
                            assert(out@[g] == before_out[g]);
                        } else {
                            assert(creators[g] == i as int && out@[g] == out@[out@.len() - 1]);
                        }
                    }
                    assert forall|g: int, q: int|
                        0 <= g < out@.len() && 0 <= q < #[trigger] creators[g] implies !(
                    (#[trigger] moves@[q]).piece == out@[g].0.0 && moves@[q].from
                        == out@[g].0.1) by {
                        if g < before_out.len() {
                            assert(creators[g] == before_creators[g]);
                            assert(out@[g] == before_out[g]);
                        } else {
                            assert(creators[g] == i as int && out@[g].0 == (mv.piece, mv.from));
                            assert(!seen);
                        }
                    }
                    assert forall|k: int| #![trigger moves@[k]]
                        0 <= k < i + 1 implies exists|g: int, j: int|
                        0 <= g < out@.len() && 0 <= j < out@[g].1@.len() && (#[trigger] out@[g].1@[j])
                            == moves@[k] by {
                        if k < i as int {
                            let (g, j) = choose|g: int, j: int|
                                0 <= g < before_out.len() && 0 <= j < before_out[g].1@.len() && (
                                #[trigger] before_out[g].1@[j]) == moves@[k];
                            assert(out@[g].1@[j] == moves@[k]);
                        } else {
                            let gi = out@.len() - 1;
                            let j = choose|j: int|
                                0 <= j < out@[gi].1@.len() && #[trigger] out@[gi].1@[j]
                                    == moves@[k];
                            assert(out@[gi].1@[j] == moves@[k]);
                        }
                    }
                }
            } else {
                proof {
                    let q = choose|q: int|
                        0 <= q < i && (#[trigger] moves@[q]).piece == moves@[i as int].piece
                            && moves@[q].from == moves@[i as int].from;
                    let (g, j) = choose|g: int, j: int|
                        0 <= g < out@.len() && 0 <= j < out@[g].1@.len() && (#[trigger] out@[g].1@[j])
                            == moves@[q];
                    let ghost grp = out@[g].1@;
                    assert forall|k: int| #![trigger moves@[k]]
                        0 <= k < i + 1 implies exists|g2: int, j2: int|
                        0 <= g2 < out@.len() && 0 <= j2 < out@[g2].1@.len() && (
                        #[trigger] out@[g2].1@[j2]) == moves@[k] by {
                        if k == i as int {
                            assert(out@[g].1@[j] == moves@[q]);
                            assert(out@[g].0.0 == moves@[i as int].piece && out@[g].0.1
                                == moves@[i as int].from);
                            assert(group_has(out@, g, moves@[i as int]));
                        }
                    }
                }
            }
            i = i + 1;
        }
        proof {
            assert forall|mv: Move| legal_move_ok(m, mv) implies exists|g: int, j: int|
                0 <= g < out@.len() && 0 <= j < out@[g].1@.len() && #[trigger] out@[g].1@[j]
                    == mv by {
                assert(moves@.contains(mv));
                let k = choose|k: int| 0 <= k < moves@.len() && moves@[k] == mv;
            }
            assert forall|g1: int, g2: int|
                0 <= g1 < g2 < out@.len() implies (#[trigger] out@[g1]).0 != (
            #[trigger] out@[g2]).0 by {
                if out@[g1].0 == out@[g2].0 {
                    assert(creators[g1] < creators[g2]);
                    assert(moves@[creators[g1]].piece == out@[g2].0.0 && moves@[creators[g1]].from
                        == out@[g2].0.1);
                }
            }
        }
        out
    }

    /// Plays the legal move with the given origin and destination, given
    /// in algebraic square names; rejects unparseable squares and moves
    /// the position does not allow, leaving the position unchanged.
    pub fn make_move_from_notation(&mut self, from: &str, to: &str) -> (r: Result<
        (),
        &'static str,
    >)
        requires
            board_ok(old(self)@),
            counters_ok(old(self)@),
        ensures
            board_ok(final(self)@),
            r is Ok <==> (spec_square_of(from@) is Some && spec_square_of(to@) is Some && exists|
                mv: Move,
            |
                legal_move_ok(old(self)@, mv) && mv.from == spec_square_of(from@).unwrap()
                    && mv.to == spec_square_of(to@).unwrap()),
            r is Ok ==> exists|mv: Move|
                legal_move_ok(old(self)@, mv) && mv.from == spec_square_of(from@).unwrap()
                    && mv.to == spec_square_of(to@).unwrap() && final(self)@ == spec_apply(
                    old(self)@,
                    mv,
                ),
            r is Err ==> final(self)@ == old(self)@,
    {
        let ghost m = self@;
        let from_square = match Square::from_notation(from) {
            Some(sq) => sq,
            None => {
                return Err("Invalid from square");
            },
        };
        let to_square = match Square::from_notation(to) {
            Some(sq) => sq,
            None => {
                return Err("Invalid to square");
            },
        };

        let legal_moves = self.board.generate_moves();
        let mut found: Option<Move> = None;
        let mut i: usize = 0;
        while i < legal_moves.len()
            invariant
                0 <= i <= legal_moves@.len(),
                forall|mv: Move| #[trigger] legal_moves@.contains(mv) <==> legal_move_ok(m, mv),
                match found {
                    Some(mv) => legal_move_ok(m, mv) && mv.from == from_square && mv.to
                        == to_square,
                    None => forall|k: int|
                        0 <= k < i ==> !((#[trigger] legal_moves@[k]).from == from_square
                            && legal_moves@[k].to == to_square),
                },
            decreases legal_moves@.len() - i,
        {
            let mv = legal_moves[i];
            if found.is_none() && mv.from.0 == from_square.0 && mv.to.0 == to_square.0 {
                proof {
                    assert(legal_moves@.contains(mv));
                }
                found = Some(mv);
            }
            i = i + 1;
        }

        match found {
            Some(mv) => {
                proof {
                    lemma_pseudo_make_safe(m, mv);
                }
                self.board.make_move(&mv);
                self.board.switch_side();
                Ok(())
            },
            None => {
                proof {
                    assert forall|mv: Move|
                        legal_move_ok(m, mv) implies !(mv.from == from_square && mv.to
                        == to_square) by {
                        assert(legal_moves@.contains(mv));
                        let k = choose|k: int|
                            0 <= k < legal_moves@.len() && legal_moves@[k] == mv;
                    }
                }
                Err("Illegal move")
            },
        }
    }

    /// Applies a move and passes the turn, in one step.
    pub fn apply_move(&mut self, mv: &Move)
        requires
            board_ok(old(self)@),
            make_safe(old(self)@, *mv),
        ensures
            final(self)@ == spec_apply(old(self)@, *mv),
            board_ok(final(self)@),
    {
        self.board.make_move(mv);
        self.board.switch_side();
    }

    /// Whether the game goes on, and if not, how it ended.
    pub fn get_game_state(&self) -> (r: GameState)
        requires
            board_ok(self@),
            counters_ok(self@),
        ensures
            r == game_state_spec(self@),
    {
        let ghost m = self@;
        let legal_moves = self.board.generate_moves();
        if legal_moves.len() == 0 {
            proof {
                assert forall|mv: Move| !legal_move_ok(m, mv) by {
                    if legal_move_ok(m, mv) {
                        assert(legal_moves@.contains(mv));
                        let k = choose|k: int|
                            0 <= k < legal_moves@.len() && legal_moves@[k] == mv;
                    }
                }
            }
            if self.board.is_in_check(self.board.side_to_move()) {
                return GameState::Checkmate;
            } else {
                return GameState::Stalemate;
            }
        }
        proof {
            assert(legal_moves@.contains(legal_moves@[0]));
            assert(legal_move_ok(m, legal_moves@[0]));
        }
        GameState::InProgress
    }

    /// The searcher's choice of move, or none when the position is terminal.
    pub fn find_best_move(&self) -> (r: Option<Move>)
        requires
            board_ok(self@),
            self@.halfmove + SEARCH_DEPTH < 256,
            self@.fullmove + SEARCH_DEPTH < 65536,
        ensures
            match r {
                Some(mv) => legal_move_ok(self@, mv),
                None => forall|mv: Move| !legal_move_ok(self@, mv),
            },
    {
        self.searcher.search(&self.board, &self.evaluator)
    }
}

/// Group `g` of `out` holds some move equal to `mv`.
pub open spec fn group_has(out: Seq<((Piece, Square), Vec<Move>)>, g: int, mv: Move) -> bool {
    exists|j: int| 0 <= j < out[g].1@.len() && out[g].1@[j] == mv
}

} // verus!
