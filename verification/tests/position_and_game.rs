use chess_engine::game::GameManager;
use chess_engine::movegen::BitboardMoveGenerator;
use chess_engine::movegen::NaiveMoveGenerator;
use chess_engine::position::BitboardBoard;
use chess_engine::types::Color;
use chess_engine::types::GameState;
use chess_engine::types::Move;
use chess_engine::types::Piece;
use chess_engine::types::PieceKind;
use chess_engine::types::Square;

const START_FEN: &str = "rnbqkbnr/pppppppp/8/8/8/8/PPPPPPPP/RNBQKBNR w KQkq - 0 1";

#[test]
fn startpos_has_twenty_legal_moves() {
    let board = BitboardBoard::new_startpos();
    let moves = board.generate_moves();
    assert_eq!(moves.len(), 20);
    let pawn_moves = moves
        .iter()
        .filter(|m| m.piece.kind == PieceKind::Pawn)
        .count();
    let knight_moves = moves
        .iter()
        .filter(|m| m.piece.kind == PieceKind::Knight)
        .count();
    assert_eq!(pawn_moves, 16);
    assert_eq!(knight_moves, 4);
}

#[test]
fn startpos_exports_the_standard_record() {
    let board = BitboardBoard::new_startpos();
    assert_eq!(board.to_fen(), START_FEN);
}

#[test]
fn fen_round_trips_exactly() {
    let records = [
        START_FEN,
        "8/8/8/8/8/8/P7/8 w - - 0 1",
        "r1b2rk1/pppp1ppp/2n1p3/4Pn2/3PNP2/2PB1Q2/PP4Pq/R4RK1 w - - 0 14",
        "8/p7/8/8/8/8/8/8 b - - 12 34",
        "rnbqkbnr/pppppppp/8/8/4P3/8/PPPP1PPP/RNBQKBNR b KQkq e3 0 1",
        "4k3/8/8/8/8/8/8/4K2R w K - 99 255",
    ];
    for record in records {
        let mut board = BitboardBoard::new_empty();
        assert!(board.load_fen(record), "rejected: {}", record);
        assert_eq!(board.to_fen(), record);
    }
}

#[test]
fn malformed_records_are_rejected_without_damage() {
    let mut board = BitboardBoard::new_startpos();
    let bad = [
        "",
        "rnbqkbnr/pppppppp/8/8/8/8/PPPPPPPP/RNBQKBNR",
        "rnbqkbnr/pppppppp/8/8/8/8/PPPPPPPP w KQkq - 0 1",
        "rnbqkbnr/pppppppp/8/8/8/8/PPPPPPPP/RNBQKBNR x KQkq - 0 1",
        "rnbqkbnr/pppppppp/8/8/8/8/PPPPPPPP/RNBQKBNR w QK - 0 1",
        "rnbqkbnr/pppppppp/8/8/8/8/PPPPPPPP/RNBQKBNR w KQkq e9 0 1",
        "rnbqkbnr/pppppppp/8/8/8/8/PPPPPPPP/RNBQKBNR w KQkq - 07 1",
        "rnbqkbnr/pppppppp/8/8/8/8/PPPPPPPP/RNBQKBNR w KQkq - 0 99999",
        "rnbqkbnr/pppppppp/9/8/8/8/PPPPPPPP/RNBQKBNR w KQkq - 0 1",
        "rnbqkbnr/pppppppp/8/8/8/8/PPPPPPPPP/RNBQKBNR w KQkq - 0 1",
    ];
    for record in bad {
        assert!(!board.load_fen(record), "accepted: {}", record);
        assert_eq!(board.to_fen(), START_FEN);
    }
}

#[test]
fn make_then_unmake_restores_the_position() {
    let mut board = BitboardBoard::new_startpos();
    let before = board.to_fen();
    let moves = board.generate_moves();
    for mv in moves {
        board.make_move(&mv);
        board.switch_side();
        board.unmake_move(&mv);
        board.switch_side();
        assert_eq!(board.to_fen(), before);
    }
}

#[test]
fn capture_removes_exactly_one_piece() {
    let mut board = BitboardBoard::new_empty();
    assert!(board.load_fen("8/8/8/1p6/P1P5/8/8/8 b - - 0 1"));
    let count_pieces = |b: &BitboardBoard| {
        let mut n = 0u32;
        for i in 0..12usize {
            n += b.bitboard(i).count_ones();
        }
        n
    };
    assert_eq!(count_pieces(&board), 3);
    let moves = NaiveMoveGenerator.generate_moves(&board);
    let capture = moves
        .iter()
        .find(|m| m.captures.is_some())
        .copied()
        .expect("a capture exists");
    board.make_move(&capture);
    assert_eq!(count_pieces(&board), 2);
}

#[test]
fn attack_map_covers_queen_rays() {
    let mut board = BitboardBoard::new_empty();
    assert!(board.load_fen("8/8/8/3Q4/8/8/8/8 w - - 0 1"));
    let map = board.generate_attack_map(Color::White);
    assert_eq!(map.count_ones(), 27);
    let moves = NaiveMoveGenerator.generate_moves(&board);
    for mv in &moves {
        assert!(map & (1u64 << mv.to.0) != 0);
    }
    assert_eq!(moves.len(), 27);
}

#[test]
fn is_in_check_sees_the_rook() {
    let mut board = BitboardBoard::new_empty();
    assert!(board.load_fen("4k3/8/8/8/8/8/8/4K2R b K - 0 1"));
    assert!(!board.is_in_check(Color::Black));
    assert!(board.load_fen("4k3/8/8/8/8/8/8/4R1K1 b - - 0 1"));
    assert!(board.is_in_check(Color::Black));
    assert!(!board.is_in_check(Color::White));
}

#[test]
fn game_state_reports_checkmate_and_stalemate() {
    let mut game = GameManager::new();
    assert_eq!(game.get_game_state(), GameState::InProgress);
    assert!(game.load_from_fen("rnb1kbnr/pppp1ppp/4p3/8/6Pq/5P2/PPPPP2P/RNBQKBNR w KQkq - 1 3"));
    assert_eq!(game.get_game_state(), GameState::Checkmate);
    assert!(game.load_from_fen("7k/5Q2/6K1/8/8/8/8/8 b - - 0 1"));
    assert_eq!(game.get_game_state(), GameState::Stalemate);
}

#[test]
fn notation_moves_are_validated() {
    let mut game = GameManager::new();
    assert!(game.make_move_from_notation("e2", "e4").is_ok());
    assert_eq!(game.get_board().side_to_move(), Color::Black);
    assert!(game.make_move_from_notation("e9", "e5").is_err());
    assert!(game.make_move_from_notation("e7", "e2").is_err());
    assert!(game.make_move_from_notation("e7", "e5").is_ok());
}

#[test]
fn grouped_moves_cover_all_legal_moves() {
    let game = GameManager::new();
    let groups = game.get_legal_moves_grouped();
    let mut total = 0;
    for ((piece, from), moves) in &groups {
        assert!(!moves.is_empty());
        for mv in moves {
            assert_eq!(mv.piece, *piece);
            assert_eq!(mv.from, *from);
        }
        total += moves.len();
    }
    assert_eq!(total, 20);
}

#[test]
fn search_plays_a_legal_move() {
    let mut game = GameManager::new();
    assert!(game.load_from_fen("k7/8/8/8/8/8/8/K6R w - - 0 1"));
    let best = game.find_best_move().expect("a move exists");
    let legal = game.get_board().generate_moves();
    assert!(legal.contains(&best));
}

#[test]
fn evaluation_counts_material() {
    let mut game = GameManager::new();
    assert_eq!(game.get_evaluation(), 0);
    assert!(game.load_from_fen("4k3/8/8/8/8/8/8/QQQQK3 w - - 0 1"));
    let score = game.get_evaluation();
    assert!(score > 3000, "score was {}", score);
}

#[test]
fn square_notation_round_trips() {
    assert_eq!(Square::from_notation("e4"), Some(Square(28)));
    assert_eq!(Square(28).to_notation(), "e4");
    assert_eq!(Square::from_notation("a1"), Some(Square(0)));
    assert_eq!(Square::from_notation("h8"), Some(Square(63)));
    assert_eq!(Square::from_notation("i4"), None);
    assert_eq!(Square::from_notation("e9"), None);
    assert_eq!(Square::from_notation("e"), None);
}

#[test]
fn promotion_moves_come_in_fours() {
    let mut board = BitboardBoard::new_empty();
    assert!(board.load_fen("8/P7/8/8/8/8/8/K6k w - - 0 1"));
    let all_moves = board.generate_moves();
    let moves: Vec<_> = all_moves
        .iter()
        .filter(|m| m.promotion.is_some())
        .copied()
        .collect();
    assert_eq!(moves.len(), 4);
    let mut kinds: Vec<PieceKind> = moves.iter().map(|m| m.promotion.unwrap()).collect();
    kinds.sort_by_key(|k| *k as u8);
    assert_eq!(
        kinds,
        vec![
            PieceKind::Knight,
            PieceKind::Bishop,
            PieceKind::Rook,
            PieceKind::Queen,
        ]
    );
    for mv in &moves {
        assert_eq!(mv.to, Square::from_notation("a8").unwrap());
    }
}

#[test]
fn double_push_sets_the_en_passant_target() {
    let mut board = BitboardBoard::new_startpos();
    let moves = board.generate_moves();
    let double = moves
        .iter()
        .find(|m| m.from == Square::from_notation("e2").unwrap() && m.to == Square::from_notation("e4").unwrap())
        .copied()
        .expect("e2e4 is legal");
    board.make_move(&double);
    board.switch_side();
    assert_eq!(board.en_passant_square(), Square::from_notation("e3"));
    assert_eq!(board.to_fen(), "rnbqkbnr/pppppppp/8/8/4P3/8/PPPP1PPP/RNBQKBNR b KQkq e3 0 1");
}

#[test]
fn moving_a_rook_revokes_one_castling_right() {
    let mut board = BitboardBoard::new_empty();
    assert!(board.load_fen("r3k2r/8/8/8/8/8/8/R3K2R w KQkq - 0 1"));
    let moves = board.generate_moves();
    let rook_up = moves
        .iter()
        .find(|m| m.from == Square::from_notation("h1").unwrap()
            && m.to == Square::from_notation("g1").unwrap())
        .copied()
        .expect("the h1 rook can step to g1");
    board.make_move(&rook_up);
    let fen = board.to_fen();
    let castling_field: &str = fen.split(' ').nth(2).unwrap();
    assert_eq!(castling_field, "Qkq");
}

#[test]
fn capturing_a_home_rook_revokes_its_right() {
    let mut board = BitboardBoard::new_empty();
    assert!(board.load_fen("r3k2r/8/8/8/8/8/8/R3K2R w KQkq - 0 1"));
    let moves = board.generate_moves();
    let take = moves
        .iter()
        .find(|m| m.from == Square::from_notation("a1").unwrap()
            && m.to == Square::from_notation("a8").unwrap())
        .copied()
        .expect("the a1 rook can capture on a8");
    assert_eq!(
        take.captures,
        Some(Piece { color: Color::Black, kind: PieceKind::Rook })
    );
    board.make_move(&take);
    let fen = board.to_fen();
    let castling_field: &str = fen.split(' ').nth(2).unwrap();
    assert_eq!(castling_field, "Kk");
}

#[test]
fn both_castles_are_generated_and_applied() {
    let mut board = BitboardBoard::new_empty();
    assert!(board.load_fen("r3k2r/8/8/8/8/8/8/R3K2R w KQkq - 0 1"));
    let moves = board.generate_moves();
    let kingside = moves
        .iter()
        .find(|m| m.from == Square::from_notation("e1").unwrap()
            && m.to == Square::from_notation("g1").unwrap())
        .copied()
        .expect("kingside castling is legal");
    assert!(moves.iter().any(|m| m.from == Square::from_notation("e1").unwrap()
        && m.to == Square::from_notation("c1").unwrap()));
    board.make_move(&kingside);
    board.switch_side();
    assert_eq!(board.to_fen(), "r3k2r/8/8/8/8/8/8/R4RK1 b kq - 1 1");
    board.unmake_move(&kingside);
    board.switch_side();
    assert_eq!(board.to_fen(), "r3k2r/8/8/8/8/8/8/R3K2R w KQkq - 0 1");
}

#[test]
fn castling_through_an_attacked_square_is_refused() {
    let mut board = BitboardBoard::new_empty();
    assert!(board.load_fen("5r2/8/8/8/8/8/8/4K2R w K - 0 1"));
    let moves = board.generate_moves();
    assert!(!moves.iter().any(|m| m.from == Square::from_notation("e1").unwrap()
        && m.to == Square::from_notation("g1").unwrap()));
}

#[test]
fn en_passant_capture_removes_the_passed_pawn() {
    let mut board = BitboardBoard::new_empty();
    assert!(board.load_fen("4k3/8/8/3pP3/8/8/8/4K3 w - d6 0 2"));
    let moves = board.generate_moves();
    let ep = moves
        .iter()
        .find(|m| m.from == Square::from_notation("e5").unwrap()
            && m.to == Square::from_notation("d6").unwrap())
        .copied()
        .expect("the en-passant capture is legal");
    assert_eq!(
        ep.captures,
        Some(Piece { color: Color::Black, kind: PieceKind::Pawn })
    );
    board.make_move(&ep);
    board.switch_side();
    assert_eq!(board.to_fen(), "4k3/8/3P4/8/8/8/8/4K3 b - - 0 2");
    board.unmake_move(&ep);
    board.switch_side();
    assert_eq!(board.to_fen(), "4k3/8/8/3pP3/8/8/8/4K3 w - d6 0 2");
}

#[test]
fn no_en_passant_without_a_recorded_target() {
    let mut board = BitboardBoard::new_empty();
    assert!(board.load_fen("4k3/8/8/3pP3/8/8/8/4K3 w - - 0 2"));
    let moves = board.generate_moves();
    assert!(!moves.iter().any(|m| m.from == Square::from_notation("e5").unwrap()
        && m.to == Square::from_notation("d6").unwrap()));
}

#[test]
fn pieces_are_listed_once_each() {
    let board = BitboardBoard::new_startpos();
    let all = board.get_all_pieces();
    assert_eq!(all.len(), 32);
    assert_eq!(
        board.piece_at(Square::from_notation("d1").unwrap()),
        Some(Piece { color: Color::White, kind: PieceKind::Queen })
    );
    assert_eq!(board.piece_at(Square::from_notation("d5").unwrap()), None);
}

#[test]
fn move_value_is_plain_data() {
    let from = Square::from_notation("g1").unwrap();
    let to = Square::from_notation("f3").unwrap();
    let piece = Piece { color: Color::White, kind: PieceKind::Knight };
    let mv = Move::new(from, to, piece, None, None);
    assert_eq!(mv.from, from);
    assert_eq!(mv.to, to);
    assert_eq!(mv.piece, piece);
    assert_eq!(mv.promotion, None);
    assert_eq!(mv.captures, None);
}
