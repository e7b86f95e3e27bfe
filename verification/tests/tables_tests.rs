use chess_engine::bitboard::Bitboard;
use chess_engine::magic_bitboards::{
    get_bishop_moves, get_king_moves, get_knight_moves, get_rook_moves, AttackTables,
};

fn board_of(squares: &[(usize, usize)]) -> u64 {
    let mut v = 0u64;
    for &(i, j) in squares {
        v |= 1u64 << (i * 8 + j);
    }
    v
}

#[test]
fn king_steps_at_corner_and_center() {
    let king = get_king_moves();
    assert_eq!(king[0].val, board_of(&[(0, 1), (1, 0), (1, 1)]));
    let center = board_of(&[
        (2, 2),
        (2, 3),
        (2, 4),
        (3, 2),
        (3, 4),
        (4, 2),
        (4, 3),
        (4, 4),
    ]);
    assert_eq!(king[3 * 8 + 3].val, center);
}

#[test]
fn knight_jumps_at_corner_and_center() {
    let knight = get_knight_moves();
    assert_eq!(knight[0].val, board_of(&[(1, 2), (2, 1)]));
    let center = board_of(&[
        (1, 2),
        (1, 4),
        (2, 1),
        (2, 5),
        (4, 1),
        (4, 5),
        (5, 2),
        (5, 4),
    ]);
    assert_eq!(knight[3 * 8 + 3].val, center);
}

#[test]
fn rook_mask_excludes_origin_and_rims() {
    let masks = get_rook_moves();
    // rook on (0,0): row squares (0,1)..(0,6) and column squares (1,0)..(6,0)
    let expected = board_of(&[
        (0, 1),
        (0, 2),
        (0, 3),
        (0, 4),
        (0, 5),
        (0, 6),
        (1, 0),
        (2, 0),
        (3, 0),
        (4, 0),
        (5, 0),
        (6, 0),
    ]);
    assert_eq!(masks[0].val, expected);
    // rook on (3,3): the row and column interiors without (3,3)
    let expected_center = board_of(&[
        (3, 1),
        (3, 2),
        (3, 4),
        (3, 5),
        (3, 6),
        (1, 3),
        (2, 3),
        (4, 3),
        (5, 3),
        (6, 3),
    ]);
    assert_eq!(masks[3 * 8 + 3].val, expected_center);
}

#[test]
fn bishop_mask_is_diagonal_interiors() {
    let masks = get_bishop_moves();
    // bishop on (0,0): the long-diagonal interior
    let expected = board_of(&[(1, 1), (2, 2), (3, 3), (4, 4), (5, 5), (6, 6)]);
    assert_eq!(masks[0].val, expected);
    // bishop on (3,3)
    let expected_center = board_of(&[
        (1, 1),
        (2, 2),
        (4, 4),
        (5, 5),
        (6, 6),
        (1, 5),
        (2, 4),
        (4, 2),
        (5, 1),
    ]);
    assert_eq!(masks[3 * 8 + 3].val, expected_center);
}

#[test]
fn rook_attacks_stop_at_first_blocker() {
    let tables = AttackTables::new();
    // rook on (0,0), blocker on (0,3): the ray east stops there (inclusive)
    let blockers = Bitboard::new(board_of(&[(0, 3)]));
    let reach = tables.rook_attacks(0, 0, blockers);
    let expected = board_of(&[
        (0, 1),
        (0, 2),
        (0, 3),
        (1, 0),
        (2, 0),
        (3, 0),
        (4, 0),
        (5, 0),
        (6, 0),
        (7, 0),
    ]);
    assert_eq!(reach.val, expected);
}

#[test]
fn bishop_attacks_on_empty_board() {
    let tables = AttackTables::new();
    let reach = tables.bishop_attacks(3, 3, Bitboard::new(0));
    let expected = board_of(&[
        (0, 0),
        (1, 1),
        (2, 2),
        (4, 4),
        (5, 5),
        (6, 6),
        (7, 7),
        (0, 6),
        (1, 5),
        (2, 4),
        (4, 2),
        (5, 1),
        (6, 0),
    ]);
    assert_eq!(reach.val, expected);
}

#[test]
fn rook_attacks_agree_with_ray_walk_over_mask_subsets() {
    // attack-table consistency on one square: every subset of the blocker
    // mask of (2,5) looked up through the table equals a naive ray walk
    let tables = AttackTables::new();
    let s = 2 * 8 + 5;
    let mask = tables.rook_blocker_masks[s];
    for blockers in mask.generate_subsets() {
        let looked_up = tables.rook_attacks(2, 5, blockers);
        let walked = naive_rook_walk(blockers.val, 2, 5);
        assert_eq!(looked_up.val, walked);
    }
}

fn naive_rook_walk(blockers: u64, i: i32, j: i32) -> u64 {
    let mut res = 0u64;
    for (di, dj) in [(1, 0), (-1, 0), (0, 1), (0, -1)] {
        let mut t = 1;
        loop {
            let (ni, nj) = (i + t * di, j + t * dj);
            if ni < 0 || nj < 0 || ni >= 8 || nj >= 8 {
                break;
            }
            res |= 1u64 << (ni * 8 + nj);
            if blockers & (1u64 << (ni * 8 + nj)) != 0 {
                break;
            }
            t += 1;
        }
    }
    res
}
