use chess_engine::bitboard::Bitboard;
use chess_engine::chess_piece::ChessPiece;
use chess_engine::chess_player::ChessPlayer;
use chess_engine::magic_bitboards::AttackTables;
use chess_engine::position::Position;

fn board_of(squares: &[(usize, usize)]) -> Bitboard {
    let mut v = 0u64;
    for &(i, j) in squares {
        v |= 1u64 << (i * 8 + j);
    }
    Bitboard::new(v)
}

#[test]
fn opponent_is_an_involution() {
    assert_eq!(ChessPlayer::White.get_opponent(), ChessPlayer::Black);
    assert_eq!(ChessPlayer::Black.get_opponent(), ChessPlayer::White);
    assert_eq!(
        ChessPlayer::White.get_opponent().get_opponent(),
        ChessPlayer::White
    );
}

#[test]
fn default_position_has_twenty_moves() {
    let tables = AttackTables::new();
    let pos = Position::default();
    let moves = pos.get_valid_moves(&tables);
    assert_eq!(moves.len(), 20);
    // no entry repeats
    let mut sorted = moves.clone();
    sorted.sort();
    sorted.dedup();
    assert_eq!(sorted.len(), 20);
}

#[test]
fn default_position_queries() {
    let pos = Position::default();
    assert_eq!(pos.get_player_on_move(), ChessPlayer::White);
    assert_eq!(pos.get_piece_on_position(0, 4), Some(ChessPiece::King));
    assert_eq!(pos.get_piece_on_position(0, 3), Some(ChessPiece::Queen));
    assert_eq!(pos.get_piece_on_position(1, 0), Some(ChessPiece::Pawn));
    assert_eq!(pos.get_piece_on_position(7, 1), Some(ChessPiece::Knight));
    assert_eq!(pos.get_piece_on_position(4, 4), None);
    assert_eq!(pos.get_player_on_position(0, 0), Some(ChessPlayer::White));
    assert_eq!(pos.get_player_on_position(6, 5), Some(ChessPlayer::Black));
    assert_eq!(pos.get_player_on_position(3, 3), None);
}

#[test]
fn double_pawn_push_applies_and_flips_side() {
    let tables = AttackTables::new();
    let mut pos = Position::default();
    assert!(pos.make_move(&tables, 1, 4, 3, 4));
    assert_eq!(pos.get_player_on_move(), ChessPlayer::Black);
    assert_eq!(pos.get_piece_on_position(3, 4), Some(ChessPiece::Pawn));
    assert_eq!(pos.get_piece_on_position(1, 4), None);
}

#[test]
fn side_to_move_alternates_over_successful_moves() {
    let tables = AttackTables::new();
    let mut pos = Position::default();
    assert_eq!(pos.get_player_on_move(), ChessPlayer::White);
    assert!(pos.make_move(&tables, 1, 4, 3, 4));
    assert_eq!(pos.get_player_on_move(), ChessPlayer::Black);
    assert!(pos.make_move(&tables, 6, 4, 4, 4));
    assert_eq!(pos.get_player_on_move(), ChessPlayer::White);
    assert!(pos.make_move(&tables, 0, 6, 2, 7));
    assert_eq!(pos.get_player_on_move(), ChessPlayer::Black);
}

#[test]
fn fools_mate_reaches_checkmate() {
    let tables = AttackTables::new();
    let mut pos = Position::default();
    assert!(pos.make_move(&tables, 1, 5, 2, 5));
    assert!(pos.make_move(&tables, 6, 4, 4, 4));
    assert!(pos.make_move(&tables, 1, 6, 3, 6));
    assert!(pos.make_move(&tables, 7, 3, 3, 7));
    assert!(pos.is_in_check(&tables, ChessPlayer::White));
    assert!(pos.is_in_check_mate(&tables, ChessPlayer::White));
    assert!(pos.get_valid_moves(&tables).is_empty());
}

#[test]
fn pawn_promotes_to_queen_on_last_rank() {
    let tables = AttackTables::new();
    // a lone White pawn one step from promotion, kings far apart
    let white = board_of(&[(6, 0), (0, 0)]);
    let pawn = board_of(&[(6, 0)]);
    let king = board_of(&[(0, 0), (0, 7)]);
    let empty = Bitboard::new(0);
    let mut pos = Position::new(white, pawn, empty, empty, empty, empty, king, 0);
    assert!(pos.make_move(&tables, 6, 0, 7, 0));
    assert_eq!(pos.get_piece_on_position(7, 0), Some(ChessPiece::Queen));
    // the pawn board no longer intersects the White pieces at all
    let pawns_after = pos.get_piece_mask(ChessPiece::Pawn);
    assert_eq!(pawns_after.val & pos.get_white_pieces().val, 0);
    assert_eq!(pawns_after.val, 0);
}

#[test]
fn king_cannot_step_along_a_checked_rank() {
    let tables = AttackTables::new();
    // Black rook on (3,3), White king on (3,7), Black king far away on
    // (7,0); White to move: (3,6) stays attacked along rank 3
    let white = board_of(&[(3, 7)]);
    let rook = board_of(&[(3, 3)]);
    let king = board_of(&[(3, 7), (7, 0)]);
    let empty = Bitboard::new(0);
    let pos = Position::new(white, empty, rook, empty, empty, empty, king, 0);
    let moves = pos.get_valid_moves(&tables);
    assert!(!moves.contains(&(3, 7, 3, 6)));
    let mut copy = pos;
    assert!(!copy.make_move(&tables, 3, 7, 3, 6));
    // a failed move leaves the side to move unchanged
    assert_eq!(copy.get_player_on_move(), ChessPlayer::White);
    // stepping off the checked rank is allowed
    let mut copy2 = pos;
    assert!(copy2.make_move(&tables, 3, 7, 4, 7));
}

#[test]
fn rook_check_is_detected() {
    let tables = AttackTables::new();
    // Black rook shares the White king's rank on an otherwise open board
    let white = board_of(&[(0, 0)]);
    let rook = board_of(&[(0, 7)]);
    let king = board_of(&[(0, 0), (7, 7)]);
    let empty = Bitboard::new(0);
    let pos = Position::new(white, empty, rook, empty, empty, empty, king, 0);
    assert!(pos.is_in_check(&tables, ChessPlayer::White));
    assert!(!pos.is_in_check(&tables, ChessPlayer::Black));
}

#[test]
fn pawn_attack_set_includes_forward_pushes() {
    let tables = AttackTables::new();
    // the engine reuses the pawn move masks for the attacked set, so the
    // square straight ahead of a pawn counts as attacked
    let pos = Position::default();
    let attacked = pos.get_attacked_positions(&tables, ChessPlayer::White);
    assert!(attacked.is_set(2, 0));
    assert!(attacked.is_set(3, 0));
    // the two knight-reachable squares are attacked as well
    assert!(attacked.is_set(2, 0));
    assert!(attacked.is_set(2, 5));
}

#[test]
fn capture_removes_the_victim() {
    let tables = AttackTables::new();
    // White rook takes an undefended Black rook across the board
    let white = board_of(&[(0, 0), (4, 4)]);
    let rook = board_of(&[(4, 4), (4, 0)]);
    let king = board_of(&[(0, 0), (7, 7)]);
    let empty = Bitboard::new(0);
    let mut pos = Position::new(white, empty, rook, empty, empty, empty, king, 0);
    assert!(pos.make_move(&tables, 4, 4, 4, 0));
    assert_eq!(pos.get_piece_on_position(4, 0), Some(ChessPiece::Rook));
    assert_eq!(pos.get_player_on_position(4, 0), Some(ChessPlayer::White));
    assert_eq!(pos.get_piece_on_position(4, 4), None);
    assert_eq!(pos.get_piece_mask(ChessPiece::Rook).count_ones(), 1);
}

#[test]
fn board_text_renders_the_default_position() {
    let tables = AttackTables::new();
    let pos = Position::default();
    let text = pos.board_text(&tables);
    assert!(text.starts_with("White on move.\n"));
    assert!(text.contains("   0   1   2   3   4   5   6   7"));
    // eight board rows plus banner and legend
    assert!(text.lines().count() >= 10);
    assert!(!text.contains("check"));
}

#[test]
fn board_text_reports_checkmate() {
    let tables = AttackTables::new();
    let mut pos = Position::default();
    assert!(pos.make_move(&tables, 1, 5, 2, 5));
    assert!(pos.make_move(&tables, 6, 4, 4, 4));
    assert!(pos.make_move(&tables, 1, 6, 3, 6));
    assert!(pos.make_move(&tables, 7, 3, 3, 7));
    let text = pos.board_text(&tables);
    assert!(text.contains("White is in check-mate."));
}

#[test]
fn piece_ordinals_roundtrip() {
    let pieces = [
        ChessPiece::Pawn,
        ChessPiece::Rook,
        ChessPiece::Knight,
        ChessPiece::Bishop,
        ChessPiece::Queen,
        ChessPiece::King,
    ];
    for (n, p) in pieces.iter().enumerate() {
        assert_eq!(p.to_index(), n);
        assert_eq!(ChessPiece::from_index(n), *p);
    }
}

#[test]
fn piece_board_overlap_is_detected() {
    let empty = Bitboard::new(0);
    let king = board_of(&[(0, 0), (7, 7)]);
    let ok = Position::new(board_of(&[(0, 0)]), empty, empty, empty, empty, empty, king, 0);
    assert!(ok.is_position_valid());
    assert!(Position::default().is_position_valid());
    // the same square claimed as both a rook and a bishop
    let overlap = board_of(&[(4, 4)]);
    let bad = Position::new(overlap, empty, overlap, empty, overlap, empty, king, 0);
    assert!(!bad.is_position_valid());
}

#[test]
fn color_counts_split_the_occupied_squares() {
    let pos = Position::default();
    let white = pos.get_white_pieces().count_ones();
    let black = pos.get_black_pieces().count_ones();
    let taken = pos.get_taken_bitboard().count_ones();
    assert_eq!(white, 16);
    assert_eq!(black, 16);
    assert_eq!(white + black, taken);
}

#[test]
fn bitboard_format_rows_shows_ranks() {
    let b = board_of(&[(0, 0), (7, 7)]);
    let text = b.format_rows();
    let lines: Vec<&str> = text.lines().collect();
    assert_eq!(lines.len(), 8);
    // row 7 printed first, with columns in ascending file order
    assert_eq!(lines[0], "0b00000001");
    assert_eq!(lines[7], "0b10000000");
    assert_eq!(lines[3], "0b00000000");
}
