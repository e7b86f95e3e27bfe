use crate::bitboard::{
    bit, group_bit_lemmas, lemma_bit_and, lemma_bit_ext, lemma_bit_not, lemma_bit_or,
    lemma_bit_single, lemma_bit_zero, lemma_clear_bit_squares, lemma_no_bits_zero,
    lemma_nonzero_has_bit, lemma_popcount_disjoint, lemma_set_bit_squares, popcount, Bitboard,
};
use crate::chess_piece::ChessPiece;
use crate::chess_player::ChessPlayer;
use crate::magic_bitboards::{
    anti_sq, bishop_mask_at, bishop_reach, diag_sq, king_step, on_board, rook_mask_at, rook_reach,
    sq, strictly_between, AttackTables,
};
use vstd::prelude::*;

verus! {

/// A single square set to exactly one piece board.
pub open spec fn single_bit(b: u64) -> bool {
    exists|n: u64| n < 64 && b == (1u64 << n)
}

/// The bitboard of the squares of rank 0 and rank 7, where no pawn may stand.
pub open spec fn edge_ranks() -> u64 {
    0xFF00_0000_0000_00FFu64
}

/// The entire game state: occupancy split by color (`white`) and by piece
/// kind (the six piece boards), plus the side-to-move flag in bit 0 of
/// `other`.
#[derive(Debug, Copy, Clone, Hash)]
pub struct Position {
    pub white: Bitboard,
    pub pawn: Bitboard,
    pub rook: Bitboard,
    pub knight: Bitboard,
    pub bishop: Bitboard,
    pub queen: Bitboard,
    pub king: Bitboard,
    pub other: u64,
}

impl Position {
    /// All occupied squares.
    pub open spec fn taken(self) -> u64 {
        self.pawn@ | self.rook@ | self.knight@ | self.bishop@ | self.queen@ | self.king@
    }

    /// All empty squares.
    pub open spec fn free(self) -> u64 {
        !self.taken()
    }

    /// All squares held by Black: occupied squares that are not White's.
    pub open spec fn black(self) -> u64 {
        self.taken() & !self.white@
    }

    /// The squares held by the given player.
    pub open spec fn player_board(self, player: ChessPlayer) -> u64 {
        match player {
            ChessPlayer::White => self.white@,
            ChessPlayer::Black => self.black(),
        }
    }

    /// The board of the given piece kind, both colors together.
    pub open spec fn piece_board(self, piece: ChessPiece) -> u64 {
        match piece {
            ChessPiece::Pawn => self.pawn@,
            ChessPiece::Rook => self.rook@,
            ChessPiece::Knight => self.knight@,
            ChessPiece::Bishop => self.bishop@,
            ChessPiece::Queen => self.queen@,
            ChessPiece::King => self.king@,
        }
    }

    /// The side to move: bit 0 of `other`.
    pub open spec fn side_to_move(self) -> ChessPlayer {
        if self.other & 1 == 0 {
            ChessPlayer::White
        } else {
            ChessPlayer::Black
        }
    }

    /// How many of the six piece boards hold square `n`.
    pub open spec fn boards_at(self, n: u64) -> int {
        (if bit(self.pawn@, n) {
            1int
        } else {
            0int
        }) + (if bit(self.rook@, n) {
            1int
        } else {
            0int
        }) + (if bit(self.knight@, n) {
            1int
        } else {
            0int
        }) + (if bit(self.bishop@, n) {
            1int
        } else {
            0int
        }) + (if bit(self.queen@, n) {
            1int
        } else {
            0int
        }) + (if bit(self.king@, n) {
            1int
        } else {
            0int
        })
    }

    /// No square is claimed by two piece boards at once.
    pub open spec fn disjoint_pieces(self) -> bool {
        forall|n: u64| n < 64 ==> #[trigger] self.boards_at(n) <= 1
    }

    /// The position invariant: pairwise-disjoint piece boards, every White
    /// square occupied, exactly one king of each color, and no pawn on the
    /// first or last rank.
    pub open spec fn wf(self) -> bool {
        &&& self.disjoint_pieces()
        &&& self.white@ & !self.taken() == 0
        &&& single_bit(self.white@ & self.king@)
        &&& single_bit(self.black() & self.king@)
        &&& self.pawn@ & edge_ranks() == 0
    }

    /// The first piece board holding `(i, j)`, scanned in the fixed order
    /// pawn, rook, knight, bishop, queen, king; nothing when the square is
    /// empty.
    pub open spec fn piece_at_spec(self, i: int, j: int) -> Option<ChessPiece> {
        let n = sq(i, j);
        if bit(self.pawn@, n) {
            Some(ChessPiece::Pawn)
        } else if bit(self.rook@, n) {
            Some(ChessPiece::Rook)
        } else if bit(self.knight@, n) {
            Some(ChessPiece::Knight)
        } else if bit(self.bishop@, n) {
            Some(ChessPiece::Bishop)
        } else if bit(self.queen@, n) {
            Some(ChessPiece::Queen)
        } else if bit(self.king@, n) {
            Some(ChessPiece::King)
        } else {
            None
        }
    }

    /// The color holding `(i, j)`: nothing on an empty square, else White
    /// exactly when the square is in the White board.
    pub open spec fn player_at_spec(self, i: int, j: int) -> Option<ChessPlayer> {
        let n = sq(i, j);
        if !bit(self.taken(), n) {
            None
        } else if bit(self.white@, n) {
            Some(ChessPlayer::White)
        } else {
            Some(ChessPlayer::Black)
        }
    }

    /// All occupied squares.
    pub fn get_taken_bitboard(&self) -> (r: Bitboard)
        ensures
            r@ == self.taken(),
    {
        self.pawn.bit_or(self.rook).bit_or(self.knight).bit_or(self.bishop).bit_or(
            self.queen,
        ).bit_or(self.king)
    }

    /// All empty squares.
    pub fn get_free_bitboard(&self) -> (r: Bitboard)
        ensures
            r@ == self.free(),
    {
        self.get_taken_bitboard().bit_not()
    }

    /// The squares held by White.
    pub fn get_white_pieces(&self) -> (r: Bitboard)
        ensures
            r@ == self.white@,
    {
        self.white
    }

    /// The squares held by Black, computed as `taken - white`; sound because
    /// every White square is occupied.
    pub fn get_black_pieces(&self) -> (r: Bitboard)
        requires
            self.white@ & !self.taken() == 0,
        ensures
            r@ == self.black(),
    {
        self.get_taken_bitboard().minus(self.white)
    }

    /// The squares held by the given player.
    pub fn get_pieces_of_player(&self, player: ChessPlayer) -> (r: Bitboard)
        requires
            self.white@ & !self.taken() == 0,
        ensures
            r@ == self.player_board(player),
    {
        match player {
            ChessPlayer::White => self.get_white_pieces(),
            ChessPlayer::Black => self.get_black_pieces(),
        }
    }

    /// Flip the side-to-move flag.
    fn change_player_on_move(&mut self)
        ensures
            *final(self) == (Position { other: old(self).other ^ 1, ..*old(self) }),
    {
        self.other = self.other ^ 1;
    }

    /// The side to move.
    pub fn get_player_on_move(&self) -> (r: ChessPlayer)
        ensures
            r == self.side_to_move(),
    {
        if self.other & 1 == 0 {
            ChessPlayer::White
        } else {
            ChessPlayer::Black
        }
    }

    /// The squares held by the side to move.
    pub fn get_pieces_on_move(&self) -> (r: Bitboard)
        requires
            self.white@ & !self.taken() == 0,
        ensures
            r@ == self.player_board(self.side_to_move()),
    {
        match self.get_player_on_move() {
            ChessPlayer::White => self.get_white_pieces(),
            ChessPlayer::Black => self.get_black_pieces(),
        }
    }

    /// The board of the given piece kind.
    pub fn get_piece_mask(&self, piece: ChessPiece) -> (r: Bitboard)
        ensures
            r@ == self.piece_board(piece),
    {
        match piece {
            ChessPiece::Pawn => self.pawn,
            ChessPiece::Rook => self.rook,
            ChessPiece::Knight => self.knight,
            ChessPiece::Bishop => self.bishop,
            ChessPiece::Queen => self.queen,
            ChessPiece::King => self.king,
        }
    }

    /// The squares where the given player has the given piece kind.
    pub fn get_piece_type_by_player(&self, piece: ChessPiece, player: ChessPlayer) -> (r: Bitboard)
        requires
            self.white@ & !self.taken() == 0,
        ensures
            r@ == self.player_board(player) & self.piece_board(piece),
    {
        let player_mask = self.get_pieces_of_player(player);
        player_mask.bit_and(self.get_piece_mask(piece))
    }

    /// The squares where the side to move has the given piece kind.
    pub fn get_on_move_piece_type(&self, piece: ChessPiece) -> (r: Bitboard)
        requires
            self.white@ & !self.taken() == 0,
        ensures
            r@ == self.player_board(self.side_to_move()) & self.piece_board(piece),
    {
        self.get_pieces_on_move().bit_and(self.get_piece_mask(piece))
    }

    /// The kind of the piece standing on `(i, j)`, or nothing when empty.
    pub fn get_piece_on_position(&self, i: usize, j: usize) -> (r: Option<ChessPiece>)
        requires
            i < 8,
            j < 8,
        ensures
            r == self.piece_at_spec(i as int, j as int),
    {
        proof {
            broadcast use group_bit_lemmas;

        }
        if self.pawn.is_set(i, j) {
            Some(ChessPiece::Pawn)
        } else if self.rook.is_set(i, j) {
            Some(ChessPiece::Rook)
        } else if self.knight.is_set(i, j) {
            Some(ChessPiece::Knight)
        } else if self.bishop.is_set(i, j) {
            Some(ChessPiece::Bishop)
        } else if self.queen.is_set(i, j) {
            Some(ChessPiece::Queen)
        } else if self.king.is_set(i, j) {
            Some(ChessPiece::King)
        } else {
            None
        }
    }

    /// The color of the piece standing on `(i, j)`, or nothing when empty.
    pub fn get_player_on_position(&self, i: usize, j: usize) -> (r: Option<ChessPlayer>)
        requires
            i < 8,
            j < 8,
        ensures
            r == self.player_at_spec(i as int, j as int),
    {
        if self.get_free_bitboard().is_set(i, j) {
            proof {
                lemma_bit_not(self.taken(), sq(i as int, j as int));
            }
            None
        } else {
            proof {
                lemma_bit_not(self.taken(), sq(i as int, j as int));
            }
            if self.white.is_set(i, j) {
                Some(ChessPlayer::White)
            } else {
                Some(ChessPlayer::Black)
            }
        }
    }

    /// Whether no square is claimed by two piece boards at once, checked
    /// square by square.
    pub fn is_position_valid(&self) -> (r: bool)
        ensures
            r == self.disjoint_pieces(),
    {
        let mut n: u64 = 0;
        while n < 64
            invariant
                n <= 64,
                forall|m: u64| m < n ==> #[trigger] self.boards_at(m) <= 1,
            decreases 64 - n,
        {
            let mut total: u32 = 0;
            if self.pawn.val & (1u64 << n) != 0 {
                total = total + 1;
            }
            if self.rook.val & (1u64 << n) != 0 {
                total = total + 1;
            }
            if self.knight.val & (1u64 << n) != 0 {
                total = total + 1;
            }
            if self.bishop.val & (1u64 << n) != 0 {
                total = total + 1;
            }
            if self.queen.val & (1u64 << n) != 0 {
                total = total + 1;
            }
            if self.king.val & (1u64 << n) != 0 {
                total = total + 1;
            }
            if total >= 2 {
                proof {
                    assert(self.boards_at(n) >= 2);
                }
                return false;
            }
            n = n + 1;
        }
        true
    }
}


/// Isolating one bit of a word gives either that single bit or zero.
proof fn lemma_isolate_bit(v: u64, s: u64)
    requires
        s < 64,
    ensures
        bit(v, s) ==> v & (1u64 << s) == (1u64 << s),
        !bit(v, s) ==> v & (1u64 << s) == 0,
{
    assert(s < 64 ==> ((v & (1u64 << s) == 1u64 << s) || (v & (1u64 << s) == 0))) by (bit_vector);
}

impl Position {
    /// The pawn move targets of the pawn set `p` of `player`: a single step
    /// to a free square, the two diagonal shifts onto enemy squares, and a
    /// double step across two free squares, minus the player's own squares.
    pub open spec fn pawn_targets(self, p: u64, player: ChessPlayer) -> u64 {
        let fr = self.free();
        match player {
            ChessPlayer::White => (((p << 8) & fr) | (((p << 7) | (p << 9)) & self.black()) | ((((
            p << 8) & fr) << 8) & fr)) & !self.white@,
            ChessPlayer::Black => (((p >> 8) & fr) | (((p >> 7) | (p >> 9)) & self.white@) | ((((p
                >> 8) & fr) >> 8) & fr)) & !self.black(),
        }
    }

    /// The knight move targets of the knight set `p` of `player`: the four
    /// shift offsets the engine uses, minus the player's own squares.
    pub open spec fn knight_targets(self, p: u64, player: ChessPlayer) -> u64 {
        ((p << 15) | (p << 17) | (p >> 15) | (p >> 17)) & !self.player_board(player)
    }

    /// Whether the square `(x, y)` blocks rook travel from `(i, j)`: it is
    /// occupied and belongs to the rook blocker mask of `(i, j)`.
    pub open spec fn rook_blocked(self, i: int, j: int, x: int, y: int) -> bool {
        bit(self.taken(), sq(x, y)) && rook_mask_at(i, j, x, y)
    }

    /// Rook reachability from `(i, j)` in this position: the ray walk under
    /// the occupied squares of the rook blocker mask.
    pub open spec fn rook_reach_pos(self, i: int, j: int, k: int, l: int) -> bool {
        on_board(k, l) && ((k == i && l != j && (forall|m: int|
            #[trigger] strictly_between(j, l, m) ==> !self.rook_blocked(i, j, i, m))) || (l == j
            && k != i && (forall|m: int|
            #[trigger] strictly_between(i, k, m) ==> !self.rook_blocked(i, j, m, j))))
    }

    /// Whether the rising-diagonal square of `(i, j)` in row `m` blocks
    /// bishop travel: occupied and in the bishop blocker mask.
    pub open spec fn bishop_blocked_d(self, i: int, j: int, m: int) -> bool {
        bit(self.taken(), diag_sq(i, j, m)) && bishop_mask_at(i, j, m, j + (m - i))
    }

    /// Whether the falling-diagonal square of `(i, j)` in row `m` blocks
    /// bishop travel: occupied and in the bishop blocker mask.
    pub open spec fn bishop_blocked_a(self, i: int, j: int, m: int) -> bool {
        bit(self.taken(), anti_sq(i, j, m)) && bishop_mask_at(i, j, m, j - (m - i))
    }

    /// Bishop reachability from `(i, j)` in this position: the ray walk under
    /// the occupied squares of the bishop blocker mask.
    pub open spec fn bishop_reach_pos(self, i: int, j: int, k: int, l: int) -> bool {
        on_board(k, l) && k != i && ((k - i == l - j && (forall|m: int|
            strictly_between(i, k, m) ==> !#[trigger] self.bishop_blocked_d(i, j, m))) || (k - i
            == j - l && (forall|m: int|
            strictly_between(i, k, m) ==> !#[trigger] self.bishop_blocked_a(i, j, m))))
    }

    /// The pseudo-legal destinations of the pawn of `player` on `(i, j)`.
    pub fn get_valid_pawn_moves(&self, i: usize, j: usize, player: ChessPlayer) -> (r: Bitboard)
        requires
            self.white@ & !self.taken() == 0,
            i < 8,
            j < 8,
            bit(self.player_board(player) & self.pawn@, sq(i as int, j as int)),
        ensures
            r@ == self.pawn_targets(1u64 << sq(i as int, j as int), player),
    {
        let n: u64 = (i * 8 + j) as u64;
        let my_pawn = self.get_piece_type_by_player(ChessPiece::Pawn, player).bit_and(
            Bitboard::new(1u64 << n),
        );
        proof {
            lemma_isolate_bit(self.player_board(player) & self.pawn@, n);
        }
        let free = self.get_free_bitboard();
        let classic_move = match player {
            ChessPlayer::White => my_pawn.shl(8).bit_and(free),
            ChessPlayer::Black => my_pawn.shr(8).bit_and(free),
        };
        let diagonal_move = match player {
            ChessPlayer::White => my_pawn.shl(7).bit_or(my_pawn.shl(9)).bit_and(
                self.get_black_pieces(),
            ),
            ChessPlayer::Black => my_pawn.shr(7).bit_or(my_pawn.shr(9)).bit_and(
                self.get_white_pieces(),
            ),
        };
        let starting_move = match player {
            ChessPlayer::White => my_pawn.shl(8).bit_and(free).shl(8).bit_and(free),
            ChessPlayer::Black => my_pawn.shr(8).bit_and(free).shr(8).bit_and(free),
        };
        let all_moves = classic_move.bit_or(diagonal_move).bit_or(starting_move);
        all_moves.bit_and(self.get_pieces_of_player(player).bit_not())
    }

    /// The pseudo-legal destinations of the knight of `player` on `(i, j)`,
    /// by the engine's four shift offsets.
    pub fn get_valid_knight_moves(&self, i: usize, j: usize, player: ChessPlayer) -> (r: Bitboard)
        requires
            self.white@ & !self.taken() == 0,
            i < 8,
            j < 8,
            bit(self.player_board(player) & self.knight@, sq(i as int, j as int)),
        ensures
            r@ == self.knight_targets(1u64 << sq(i as int, j as int), player),
    {
        let n: u64 = (i * 8 + j) as u64;
        let my_knight = self.get_piece_type_by_player(ChessPiece::Knight, player).bit_and(
            Bitboard::new(1u64 << n),
        );
        proof {
            lemma_isolate_bit(self.player_board(player) & self.knight@, n);
        }
        let all_moves = my_knight.shl(15).bit_or(my_knight.shl(17)).bit_or(my_knight.shr(15)).bit_or(
            my_knight.shr(17),
        );
        all_moves.bit_and(self.get_pieces_of_player(player).bit_not())
    }

    /// The pseudo-legal destinations of a rook of `player` on `(i, j)`, via
    /// the precomputed attack tables.
    pub fn get_valid_rook_moves(
        &self,
        tables: &AttackTables,
        i: usize,
        j: usize,
        player: ChessPlayer,
    ) -> (r: Bitboard)
        requires
            tables.wf(),
            self.white@ & !self.taken() == 0,
            i < 8,
            j < 8,
        ensures
            forall|k: int, l: int|
                on_board(k, l) ==> #[trigger] bit(r@, sq(k, l)) == (self.rook_reach_pos(
                    i as int,
                    j as int,
                    k,
                    l,
                ) && !bit(self.player_board(player), sq(k, l))),
    {
        let s = i * 8 + j;
        let mask = tables.rook_blocker_masks[s];
        let key = self.get_taken_bitboard().bit_and(mask);
        proof {
            assert forall|x: int, y: int| on_board(x, y) implies #[trigger] bit(key@, sq(x, y))
                == self.rook_blocked(i as int, j as int, x, y) by {
                lemma_bit_and(self.taken(), mask@, sq(x, y));
            }
            assert(!bit(key@, sq(i as int, j as int)));
            lemma_rook_key_reach(*self, key@, i as int, j as int);
        }
        let all_moves = tables.rook_attacks(i, j, key);
        let r = all_moves.bit_and(self.get_pieces_of_player(player).bit_not());
        proof {
            let own = self.player_board(player);
            assert forall|k: int, l: int| on_board(k, l) implies #[trigger] bit(r@, sq(k, l)) == (
            self.rook_reach_pos(i as int, j as int, k, l) && !bit(own, sq(k, l))) by {
                lemma_bit_and(all_moves@, !own, sq(k, l));
                lemma_bit_not(own, sq(k, l));
            }
        }
        r
    }

    /// The pseudo-legal destinations of a bishop of `player` on `(i, j)`,
    /// via the precomputed attack tables.
    pub fn get_valid_bishop_moves(
        &self,
        tables: &AttackTables,
        i: usize,
        j: usize,
        player: ChessPlayer,
    ) -> (r: Bitboard)
        requires
            tables.wf(),
            self.white@ & !self.taken() == 0,
            i < 8,
            j < 8,
        ensures
            forall|k: int, l: int|
                on_board(k, l) ==> #[trigger] bit(r@, sq(k, l)) == (self.bishop_reach_pos(
                    i as int,
                    j as int,
                    k,
                    l,
                ) && !bit(self.player_board(player), sq(k, l))),
    {
        let s = i * 8 + j;
        let mask = tables.bishop_blocker_masks[s];
        let key = self.get_taken_bitboard().bit_and(mask);
        proof {
            assert forall|x: int, y: int| on_board(x, y) implies #[trigger] bit(key@, sq(x, y))
                == (bit(self.taken(), sq(x, y)) && bishop_mask_at(i as int, j as int, x, y)) by {
                lemma_bit_and(self.taken(), mask@, sq(x, y));
            }
            assert(!bit(key@, sq(i as int, j as int)));
            lemma_bishop_key_reach(*self, key@, i as int, j as int);
        }
        let all_moves = tables.bishop_attacks(i, j, key);
        let r = all_moves.bit_and(self.get_pieces_of_player(player).bit_not());
        proof {
            let own = self.player_board(player);
            assert forall|k: int, l: int| on_board(k, l) implies #[trigger] bit(r@, sq(k, l)) == (
            self.bishop_reach_pos(i as int, j as int, k, l) && !bit(own, sq(k, l))) by {
                lemma_bit_and(all_moves@, !own, sq(k, l));
                lemma_bit_not(own, sq(k, l));
            }
        }
        r
    }

    /// The pseudo-legal destinations of the queen of `player` on `(i, j)`:
    /// the union of rook and bishop reachability.
    pub fn get_valid_queen_moves(
        &self,
        tables: &AttackTables,
        i: usize,
        j: usize,
        player: ChessPlayer,
    ) -> (r: Bitboard)
        requires
            tables.wf(),
            self.white@ & !self.taken() == 0,
            i < 8,
            j < 8,
            bit(self.player_board(player) & self.queen@, sq(i as int, j as int)),
        ensures
            forall|k: int, l: int|
                on_board(k, l) ==> #[trigger] bit(r@, sq(k, l)) == ((self.rook_reach_pos(
                    i as int,
                    j as int,
                    k,
                    l,
                ) || self.bishop_reach_pos(i as int, j as int, k, l)) && !bit(
                    self.player_board(player),
                    sq(k, l),
                )),
    {
        let rk = self.get_valid_rook_moves(tables, i, j, player);
        let bi = self.get_valid_bishop_moves(tables, i, j, player);
        let r = rk.bit_or(bi);
        proof {
            assert forall|k: int, l: int| on_board(k, l) implies #[trigger] bit(r@, sq(k, l)) == ((
            self.rook_reach_pos(i as int, j as int, k, l) || self.bishop_reach_pos(
                i as int,
                j as int,
                k,
                l,
            )) && !bit(self.player_board(player), sq(k, l))) by {
                lemma_bit_or(rk@, bi@, sq(k, l));
            }
        }
        r
    }

    /// The pseudo-legal destinations of the king of `player` on `(i, j)`:
    /// the neighboring squares not held by `player`.
    pub fn get_valid_king_moves(
        &self,
        tables: &AttackTables,
        i: usize,
        j: usize,
        player: ChessPlayer,
    ) -> (r: Bitboard)
        requires
            tables.wf(),
            self.white@ & !self.taken() == 0,
            i < 8,
            j < 8,
            bit(self.player_board(player) & self.king@, sq(i as int, j as int)),
        ensures
            forall|k: int, l: int|
                on_board(k, l) ==> #[trigger] bit(r@, sq(k, l)) == (king_step(
                    i as int,
                    j as int,
                    k,
                    l,
                ) && !bit(self.player_board(player), sq(k, l))),
    {
        let s = i * 8 + j;
        let steps = tables.king_moves[s];
        let r = steps.bit_and(self.get_pieces_of_player(player).bit_not());
        proof {
            let own = self.player_board(player);
            assert forall|k: int, l: int| on_board(k, l) implies #[trigger] bit(r@, sq(k, l)) == (
            king_step(i as int, j as int, k, l) && !bit(own, sq(k, l))) by {
                lemma_bit_and(steps@, !own, sq(k, l));
                lemma_bit_not(own, sq(k, l));
            }
        }
        r
    }

    /// The destination test the move dispatcher uses: whether `(k, l)` is a
    /// pseudo-legal destination for the given piece of `player` on `(i, j)`.
    pub open spec fn move_bit(
        self,
        piece: ChessPiece,
        i: int,
        j: int,
        player: ChessPlayer,
        k: int,
        l: int,
    ) -> bool {
        match piece {
            ChessPiece::Pawn => bit(self.pawn_targets(1u64 << sq(i, j), player), sq(k, l)),
            ChessPiece::Knight => bit(self.knight_targets(1u64 << sq(i, j), player), sq(k, l)),
            ChessPiece::Rook => self.rook_reach_pos(i, j, k, l) && !bit(
                self.player_board(player),
                sq(k, l),
            ),
            ChessPiece::Bishop => self.bishop_reach_pos(i, j, k, l) && !bit(
                self.player_board(player),
                sq(k, l),
            ),
            ChessPiece::Queen => (self.rook_reach_pos(i, j, k, l) || self.bishop_reach_pos(
                i,
                j,
                k,
                l,
            )) && !bit(self.player_board(player), sq(k, l)),
            ChessPiece::King => king_step(i, j, k, l) && !bit(self.player_board(player), sq(k, l)),
        }
    }

    /// Whether the move of the given piece from `(i, j)` to `(k, l)` obeys
    /// that piece's movement rules for the side to move.
    pub fn is_valid_move(
        &self,
        tables: &AttackTables,
        chess_piece: ChessPiece,
        i: usize,
        j: usize,
        k: usize,
        l: usize,
    ) -> (r: bool)
        requires
            tables.wf(),
            self.white@ & !self.taken() == 0,
            i < 8,
            j < 8,
            k < 8,
            l < 8,
            self.piece_at_spec(i as int, j as int) == Some(chess_piece),
            bit(self.player_board(self.side_to_move()), sq(i as int, j as int)),
        ensures
            r == self.move_bit(chess_piece, i as int, j as int, self.side_to_move(), k as int, l as int),
    {
        let player_on_move = self.get_player_on_move();
        proof {
            let n = sq(i as int, j as int);
            let pb = self.player_board(player_on_move);
            lemma_bit_and(pb, self.pawn@, n);
            lemma_bit_and(pb, self.rook@, n);
            lemma_bit_and(pb, self.knight@, n);
            lemma_bit_and(pb, self.bishop@, n);
            lemma_bit_and(pb, self.queen@, n);
            lemma_bit_and(pb, self.king@, n);
        }
        let valid = match chess_piece {
            ChessPiece::Pawn => self.get_valid_pawn_moves(i, j, player_on_move).is_set(k, l),
            ChessPiece::Rook => self.get_valid_rook_moves(tables, i, j, player_on_move).is_set(
                k,
                l,
            ),
            ChessPiece::Knight => self.get_valid_knight_moves(i, j, player_on_move).is_set(k, l),
            ChessPiece::Bishop => self.get_valid_bishop_moves(tables, i, j, player_on_move).is_set(
                k,
                l,
            ),
            ChessPiece::Queen => self.get_valid_queen_moves(tables, i, j, player_on_move).is_set(
                k,
                l,
            ),
            ChessPiece::King => self.get_valid_king_moves(tables, i, j, player_on_move).is_set(
                k,
                l,
            ),
        };
        proof {
            assert(sq(k as int, l as int) == (k * 8 + l) as u64);
            assert(on_board(k as int, l as int));
        }
        valid
    }
}

/// A blocker key agreeing square by square with the position's rook blockers
/// yields exactly the position-level rook reachability.
proof fn lemma_rook_key_reach(p: Position, key: u64, i: int, j: int)
    requires
        on_board(i, j),
        forall|x: int, y: int|
            on_board(x, y) ==> #[trigger] bit(key, sq(x, y)) == p.rook_blocked(i, j, x, y),
    ensures
        forall|k: int, l: int|
            on_board(k, l) ==> #[trigger] rook_reach(key, i, j, k, l) == p.rook_reach_pos(
                i,
                j,
                k,
                l,
            ),
{
    assert forall|k: int, l: int| on_board(k, l) implies #[trigger] rook_reach(key, i, j, k, l)
        == p.rook_reach_pos(i, j, k, l) by {
        assert((forall|m: int| #[trigger] strictly_between(j, l, m) ==> !bit(key, sq(i, m))) == (
        forall|m: int| #[trigger] strictly_between(j, l, m) ==> !p.rook_blocked(i, j, i, m))) by {
            if (forall|m: int| #[trigger] strictly_between(j, l, m) ==> !bit(key, sq(i, m))) {
                assert forall|m: int| #[trigger] strictly_between(j, l, m) implies !p.rook_blocked(
                    i,
                    j,
                    i,
                    m,
                ) by {
                    assert(on_board(i, m));
                    assert(!bit(key, sq(i, m)));
                }
            }
            if (forall|m: int| #[trigger] strictly_between(j, l, m) ==> !p.rook_blocked(
                i,
                j,
                i,
                m,
            )) {
                assert forall|m: int| #[trigger] strictly_between(j, l, m) implies !bit(
                    key,
                    sq(i, m),
                ) by {
                    assert(on_board(i, m));
                    assert(!p.rook_blocked(i, j, i, m));
                }
            }
        }
        assert((forall|m: int| #[trigger] strictly_between(i, k, m) ==> !bit(key, sq(m, j))) == (
        forall|m: int| #[trigger] strictly_between(i, k, m) ==> !p.rook_blocked(i, j, m, j))) by {
            if (forall|m: int| #[trigger] strictly_between(i, k, m) ==> !bit(key, sq(m, j))) {
                assert forall|m: int| #[trigger] strictly_between(i, k, m) implies !p.rook_blocked(
                    i,
                    j,
                    m,
                    j,
                ) by {
                    assert(on_board(m, j));
                    assert(!bit(key, sq(m, j)));
                }
            }
            if (forall|m: int| #[trigger] strictly_between(i, k, m) ==> !p.rook_blocked(
                i,
                j,
                m,
                j,
            )) {
                assert forall|m: int| #[trigger] strictly_between(i, k, m) implies !bit(
                    key,
                    sq(m, j),
                ) by {
                    assert(on_board(m, j));
                    assert(!p.rook_blocked(i, j, m, j));
                }
            }
        }
    }
}

/// A blocker key agreeing square by square with the position's bishop
/// blockers yields exactly the position-level bishop reachability.
proof fn lemma_bishop_key_reach(p: Position, key: u64, i: int, j: int)
    requires
        on_board(i, j),
        forall|x: int, y: int|
            on_board(x, y) ==> #[trigger] bit(key, sq(x, y)) == (bit(p.taken(), sq(x, y))
                && bishop_mask_at(i, j, x, y)),
    ensures
        forall|k: int, l: int|
            on_board(k, l) ==> #[trigger] bishop_reach(key, i, j, k, l) == p.bishop_reach_pos(
                i,
                j,
                k,
                l,
            ),
{
    assert forall|k: int, l: int| on_board(k, l) implies #[trigger] bishop_reach(key, i, j, k, l)
        == p.bishop_reach_pos(i, j, k, l) by {
        if k - i == l - j {
            assert((forall|m: int|
                strictly_between(i, k, m) ==> !#[trigger] bit(key, diag_sq(i, j, m))) == (forall|
                m: int,
            |
                strictly_between(i, k, m) ==> !#[trigger] p.bishop_blocked_d(i, j, m))) by {
                if (forall|m: int|
                    strictly_between(i, k, m) ==> !#[trigger] bit(key, diag_sq(i, j, m))) {
                    assert forall|m: int| strictly_between(i, k, m) implies !#[trigger] p
                        .bishop_blocked_d(i, j, m) by {
                        assert(on_board(m, j + (m - i)));
                        assert(!bit(key, diag_sq(i, j, m)));
                        assert(!bit(key, sq(m, j + (m - i))));
                    }
                }
                if (forall|m: int|
                    strictly_between(i, k, m) ==> !#[trigger] p.bishop_blocked_d(i, j, m)) {
                    assert forall|m: int| strictly_between(i, k, m) implies !#[trigger] bit(
                        key,
                        diag_sq(i, j, m),
                    ) by {
                        assert(on_board(m, j + (m - i)));
                        assert(!p.bishop_blocked_d(i, j, m));
                        assert(bit(key, sq(m, j + (m - i))) == (bit(p.taken(), sq(m, j + (m - i)))
                            && bishop_mask_at(i, j, m, j + (m - i))));
                    }
                }
            }
        }
        if k - i == j - l {
            assert((forall|m: int|
                strictly_between(i, k, m) ==> !#[trigger] bit(key, anti_sq(i, j, m))) == (forall|
                m: int,
            |
                strictly_between(i, k, m) ==> !#[trigger] p.bishop_blocked_a(i, j, m))) by {
                if (forall|m: int|
                    strictly_between(i, k, m) ==> !#[trigger] bit(key, anti_sq(i, j, m))) {
                    assert forall|m: int| strictly_between(i, k, m) implies !#[trigger] p
                        .bishop_blocked_a(i, j, m) by {
                        assert(on_board(m, j - (m - i)));
                        assert(!bit(key, anti_sq(i, j, m)));
                        assert(!bit(key, sq(m, j - (m - i))));
                    }
                }
                if (forall|m: int|
                    strictly_between(i, k, m) ==> !#[trigger] p.bishop_blocked_a(i, j, m)) {
                    assert forall|m: int| strictly_between(i, k, m) implies !#[trigger] bit(
                        key,
                        anti_sq(i, j, m),
                    ) by {
                        assert(on_board(m, j - (m - i)));
                        assert(!p.bishop_blocked_a(i, j, m));
                        assert(bit(key, sq(m, j - (m - i))) == (bit(p.taken(), sq(m, j - (m - i)))
                            && bishop_mask_at(i, j, m, j - (m - i))));
                    }
                }
            }
        }
    }
}


/// Equal single-square boards name the same square.
proof fn lemma_single_bit_eq(a: u64, b: u64)
    requires
        a < 64,
        b < 64,
        (1u64 << a) == (1u64 << b),
    ensures
        a == b,
{
    lemma_bit_single(a, a);
    lemma_bit_single(b, a);
}

impl Position {
    /// One slider step relation: rook rays for a rook, diagonal rays for a
    /// bishop, both for a queen; nothing for the other piece kinds.
    pub open spec fn slider_reach_from(
        self,
        piece: ChessPiece,
        a: int,
        b: int,
        k: int,
        l: int,
    ) -> bool {
        match piece {
            ChessPiece::Rook => self.rook_reach_pos(a, b, k, l),
            ChessPiece::Bishop => self.bishop_reach_pos(a, b, k, l),
            ChessPiece::Queen => self.rook_reach_pos(a, b, k, l) || self.bishop_reach_pos(
                a,
                b,
                k,
                l,
            ),
            _ => false,
        }
    }

    /// Whether some slider of the given kind of `by` reaches `(k, l)`, with
    /// the player's own squares masked out.
    pub open spec fn slider_attack_bit(
        self,
        piece: ChessPiece,
        by: ChessPlayer,
        k: int,
        l: int,
    ) -> bool {
        exists|a: int, b: int|
            #![trigger sq(a, b)]
            on_board(a, b) && bit(self.player_board(by) & self.piece_board(piece), sq(a, b))
                && self.slider_reach_from(piece, a, b, k, l) && !bit(
                self.player_board(by),
                sq(k, l),
            )
    }

    /// Whether the king of `by` attacks `(k, l)`.
    pub open spec fn king_attack_bit(self, by: ChessPlayer, k: int, l: int) -> bool {
        exists|a: int, b: int|
            #![trigger sq(a, b)]
            on_board(a, b) && (self.player_board(by) & self.king@) == (1u64 << sq(a, b))
                && king_step(a, b, k, l) && !bit(self.player_board(by), sq(k, l))
    }

    /// Whether `(k, l)` belongs to the attacked set of `by`: the union of the
    /// pawn, knight, king, rook, bishop and queen contributions, own squares
    /// masked out. The pawn contribution reuses the move masks, forward
    /// pushes included.
    pub open spec fn attacked_bit(self, by: ChessPlayer, k: int, l: int) -> bool {
        ||| bit(self.pawn_targets(self.player_board(by) & self.pawn@, by), sq(k, l))
        ||| bit(self.knight_targets(self.player_board(by) & self.knight@, by), sq(k, l))
        ||| self.king_attack_bit(by, k, l)
        ||| self.slider_attack_bit(ChessPiece::Rook, by, k, l)
        ||| self.slider_attack_bit(ChessPiece::Bishop, by, k, l)
        ||| self.slider_attack_bit(ChessPiece::Queen, by, k, l)
    }

    /// Whether the king of `player` stands on a square the opponent attacks.
    pub open spec fn in_check_spec(self, player: ChessPlayer) -> bool {
        exists|k: int, l: int|
            #![trigger sq(k, l)]
            on_board(k, l) && self.attacked_bit(player.opponent(), k, l) && bit(
                self.player_board(player) & self.king@,
                sq(k, l),
            )
    }

    /// The squares threatened by the pawns of `by_player`, by the same three
    /// masks the pawn move generator uses.
    fn get_attacked_by_pawns(&self, by_player: ChessPlayer) -> (r: Bitboard)
        requires
            self.white@ & !self.taken() == 0,
        ensures
            r@ == self.pawn_targets(self.player_board(by_player) & self.pawn@, by_player),
    {
        let my_pawns = self.get_piece_type_by_player(ChessPiece::Pawn, by_player);
        let free = self.get_free_bitboard();
        let classic_move = match by_player {
            ChessPlayer::White => my_pawns.shl(8).bit_and(free),
            ChessPlayer::Black => my_pawns.shr(8).bit_and(free),
        };
        let diagonal_move = match by_player {
            ChessPlayer::White => my_pawns.shl(7).bit_or(my_pawns.shl(9)).bit_and(
                self.get_black_pieces(),
            ),
            ChessPlayer::Black => my_pawns.shr(7).bit_or(my_pawns.shr(9)).bit_and(
                self.get_white_pieces(),
            ),
        };
        let starting_move = match by_player {
            ChessPlayer::White => my_pawns.shl(8).bit_and(free).shl(8).bit_and(free),
            ChessPlayer::Black => my_pawns.shr(8).bit_and(free).shr(8).bit_and(free),
        };
        let all_moves = classic_move.bit_or(diagonal_move).bit_or(starting_move);
        all_moves.bit_and(self.get_pieces_of_player(by_player).bit_not())
    }

    /// The squares threatened by the knights of `by_player`.
    fn get_attacked_by_knight(&self, by_player: ChessPlayer) -> (r: Bitboard)
        requires
            self.white@ & !self.taken() == 0,
        ensures
            r@ == self.knight_targets(self.player_board(by_player) & self.knight@, by_player),
    {
        let my_knights = self.get_piece_type_by_player(ChessPiece::Knight, by_player);
        let all_moves = my_knights.shl(15).bit_or(my_knights.shl(17)).bit_or(
            my_knights.shr(15),
        ).bit_or(my_knights.shr(17));
        all_moves.bit_and(self.get_pieces_of_player(by_player).bit_not())
    }

    /// The square index of the king of `player`.
    fn get_players_king_pos(&self, player: ChessPlayer) -> (r: usize)
        requires
            self.white@ & !self.taken() == 0,
            single_bit(self.player_board(player) & self.king@),
        ensures
            r < 64,
            self.player_board(player) & self.king@ == (1u64 << (r as u64)),
    {
        let kb = self.get_piece_type_by_player(ChessPiece::King, player);
        proof {
            let n = choose|n: u64| n < 64 && kb@ == (1u64 << n);
            lemma_bit_single(n, n);
            assert(bit(kb@, n));
            assert(kb@ != 0) by {
                if kb@ == 0 {
                    lemma_bit_zero(n);
                }
            }
        }
        let r = kb.trailing_zeros();
        proof {
            let n = choose|n: u64| n < 64 && kb@ == (1u64 << n);
            lemma_bit_single(n, r as u64);
        }
        r
    }

    /// The squares threatened by the king of `by_player`.
    fn get_attacked_by_king(&self, tables: &AttackTables, by_player: ChessPlayer) -> (r: Bitboard)
        requires
            tables.wf(),
            self.white@ & !self.taken() == 0,
            single_bit(self.player_board(by_player) & self.king@),
        ensures
            forall|k: int, l: int|
                on_board(k, l) ==> #[trigger] bit(r@, sq(k, l)) == self.king_attack_bit(
                    by_player,
                    k,
                    l,
                ),
    {
        let pos = self.get_players_king_pos(by_player);
        let i = pos / 8;
        let j = pos % 8;
        proof {
            assert(bit(self.player_board(by_player) & self.king@, sq(i as int, j as int))) by {
                lemma_bit_single(pos as u64, pos as u64);
            }
        }
        let moves = self.get_valid_king_moves(tables, i, j, by_player);
        let r = moves.bit_and(self.get_pieces_of_player(by_player).bit_not());
        proof {
            let own = self.player_board(by_player);
            assert forall|k: int, l: int| on_board(k, l) implies #[trigger] bit(r@, sq(k, l))
                == self.king_attack_bit(by_player, k, l) by {
                lemma_bit_and(moves@, !own, sq(k, l));
                lemma_bit_not(own, sq(k, l));
                if bit(r@, sq(k, l)) {
                    assert(on_board(i as int, j as int) && (own & self.king@) == (1u64 << sq(
                        i as int,
                        j as int,
                    )) && king_step(i as int, j as int, k, l) && !bit(own, sq(k, l)));
                }
                if self.king_attack_bit(by_player, k, l) {
                    let (a, b) = choose|a: int, b: int|
                        #![trigger sq(a, b)]
                        on_board(a, b) && (own & self.king@) == (1u64 << sq(a, b)) && king_step(
                            a,
                            b,
                            k,
                            l,
                        ) && !bit(own, sq(k, l));
                    lemma_single_bit_eq(sq(a, b), sq(i as int, j as int));
                }
            }
        }
        r
    }

    /// The squares threatened by the rooks, bishops or queens of `by_player`.
    fn get_attacked_by_other(
        &self,
        tables: &AttackTables,
        by_player: ChessPlayer,
        piece: ChessPiece,
    ) -> (r: Bitboard)
        requires
            tables.wf(),
            self.white@ & !self.taken() == 0,
            piece == ChessPiece::Rook || piece == ChessPiece::Bishop || piece
                == ChessPiece::Queen,
        ensures
            forall|k: int, l: int|
                on_board(k, l) ==> #[trigger] bit(r@, sq(k, l)) == self.slider_attack_bit(
                    piece,
                    by_player,
                    k,
                    l,
                ),
    {
        broadcast use group_bit_lemmas;

        let board = self.get_piece_type_by_player(piece, by_player);
        let pos = board.get_ones();
        let mut attacked = Bitboard::new(0);
        proof {
            assert forall|n: u64| n < 64 implies !bit(attacked@, n) by {
                lemma_bit_zero(n);
            }
        }
        let mut x: usize = 0;
        while x < pos.len()
            invariant
                tables.wf(),
                self.white@ & !self.taken() == 0,
                piece == ChessPiece::Rook || piece == ChessPiece::Bishop || piece
                    == ChessPiece::Queen,
                x <= pos@.len(),
                board@ == self.player_board(by_player) & self.piece_board(piece),
                forall|idx: int|
                    0 <= idx < pos@.len() ==> #[trigger] pos@[idx] < 64 && bit(
                        board@,
                        pos@[idx] as u64,
                    ),
                forall|m: u64| m < 64 && bit(board@, m) ==> pos@.contains(m as usize),
                forall|k: int, l: int|
                    on_board(k, l) ==> #[trigger] bit(attacked@, sq(k, l)) == ((exists|idx: int|
                        0 <= idx < x && self.slider_reach_from(
                            piece,
                            (#[trigger] pos@[idx] as int) / 8,
                            (pos@[idx] as int) % 8,
                            k,
                            l,
                        )) && !bit(self.player_board(by_player), sq(k, l))),
            decreases pos@.len() - x,
        {
            let p = pos[x];
            let i = p / 8;
            let j = p % 8;
            proof {
                assert(bit(board@, sq(i as int, j as int)));
            }
            let moves = if piece == ChessPiece::Queen {
                self.get_valid_queen_moves(tables, i, j, by_player)
            } else if piece == ChessPiece::Rook {
                self.get_valid_rook_moves(tables, i, j, by_player)
            } else {
                self.get_valid_bishop_moves(tables, i, j, by_player)
            };
            let ghost prev = attacked@;
            attacked = attacked.bit_or(moves);
            proof {
                let own = self.player_board(by_player);
                assert forall|k: int, l: int| on_board(k, l) implies #[trigger] bit(
                    attacked@,
                    sq(k, l),
                ) == ((exists|idx: int|
                    0 <= idx < x + 1 && self.slider_reach_from(
                        piece,
                        (#[trigger] pos@[idx] as int) / 8,
                        (pos@[idx] as int) % 8,
                        k,
                        l,
                    )) && !bit(own, sq(k, l))) by {
                    lemma_bit_or(prev, moves@, sq(k, l));
                    if bit(attacked@, sq(k, l)) {
                        if bit(prev, sq(k, l)) {
                            let idx = choose|idx: int|
                                0 <= idx < x && self.slider_reach_from(
                                    piece,
                                    (#[trigger] pos@[idx] as int) / 8,
                                    (pos@[idx] as int) % 8,
                                    k,
                                    l,
                                );
                            assert(0 <= idx < x + 1 && self.slider_reach_from(
                                piece,
                                (pos@[idx] as int) / 8,
                                (pos@[idx] as int) % 8,
                                k,
                                l,
                            ));
                        } else {
                            assert(bit(moves@, sq(k, l)));
                            assert(self.slider_reach_from(
                                piece,
                                (pos@[x as int] as int) / 8,
                                (pos@[x as int] as int) % 8,
                                k,
                                l,
                            ));
                        }
                    } else {
                        assert(!bit(moves@, sq(k, l)));
                        if !bit(own, sq(k, l)) {
                            assert forall|idx: int|
                                0 <= idx < x + 1 implies !self.slider_reach_from(
                                piece,
                                (#[trigger] pos@[idx] as int) / 8,
                                (pos@[idx] as int) % 8,
                                k,
                                l,
                            ) by {
                                if idx == x as int {
                                    assert(!(self.slider_reach_from(
                                        piece,
                                        i as int,
                                        j as int,
                                        k,
                                        l,
                                    ) && !bit(own, sq(k, l))));
                                } else {
                                    assert(!bit(prev, sq(k, l)));
                                }
                            }
                        }
                    }
                }
            }
            x = x + 1;
        }
        let r = attacked.bit_and(self.get_pieces_of_player(by_player).bit_not());
        proof {
            let own = self.player_board(by_player);
            assert forall|k: int, l: int| on_board(k, l) implies #[trigger] bit(r@, sq(k, l))
                == self.slider_attack_bit(piece, by_player, k, l) by {
                lemma_bit_and(attacked@, !own, sq(k, l));
                lemma_bit_not(own, sq(k, l));
                if bit(r@, sq(k, l)) {
                    let idx = choose|idx: int|
                        0 <= idx < pos@.len() && self.slider_reach_from(
                            piece,
                            (#[trigger] pos@[idx] as int) / 8,
                            (pos@[idx] as int) % 8,
                            k,
                            l,
                        );
                    let a = (pos@[idx] as int) / 8;
                    let b = (pos@[idx] as int) % 8;
                    assert(bit(board@, sq(a as int, b as int)));
                    assert(sq(a as int, b as int) == (pos@[idx] as u64));
                    assert(on_board(a as int, b as int) && bit(
                        self.player_board(by_player) & self.piece_board(piece),
                        sq(a as int, b as int),
                    ) && self.slider_reach_from(piece, a as int, b as int, k, l) && !bit(
                        own,
                        sq(k, l),
                    ));
                }
                if self.slider_attack_bit(piece, by_player, k, l) {
                    let (a, b) = choose|a: int, b: int|
                        #![trigger sq(a, b)]
                        on_board(a, b) && bit(
                            self.player_board(by_player) & self.piece_board(piece),
                            sq(a, b),
                        ) && self.slider_reach_from(piece, a, b, k, l) && !bit(own, sq(k, l));
                    assert(pos@.contains(sq(a, b) as usize));
                    let idx = choose|idx: int| 0 <= idx < pos@.len() && pos@[idx] == sq(
                        a,
                        b,
                    ) as usize;
                    assert((pos@[idx] as int) / 8 == a && (pos@[idx] as int) % 8 == b);
                    assert(self.slider_reach_from(
                        piece,
                        (pos@[idx] as int) / 8,
                        (pos@[idx] as int) % 8,
                        k,
                        l,
                    ));
                    assert(bit(attacked@, sq(k, l)));
                }
            }
        }
        r
    }

    /// The union of every threatened square of `by_player`.
    pub fn get_attacked_positions(&self, tables: &AttackTables, by_player: ChessPlayer) -> (r:
        Bitboard)
        requires
            tables.wf(),
            self.wf(),
        ensures
            forall|k: int, l: int|
                on_board(k, l) ==> #[trigger] bit(r@, sq(k, l)) == self.attacked_bit(
                    by_player,
                    k,
                    l,
                ),
    {
        let pw = self.get_attacked_by_pawns(by_player);
        let kn = self.get_attacked_by_knight(by_player);
        let ki = self.get_attacked_by_king(tables, by_player);
        let rk = self.get_attacked_by_other(tables, by_player, ChessPiece::Rook);
        let bi = self.get_attacked_by_other(tables, by_player, ChessPiece::Bishop);
        let qu = self.get_attacked_by_other(tables, by_player, ChessPiece::Queen);
        let r = pw.bit_or(kn).bit_or(ki).bit_or(rk).bit_or(bi).bit_or(qu);
        proof {
            assert forall|k: int, l: int| on_board(k, l) implies #[trigger] bit(r@, sq(k, l))
                == self.attacked_bit(by_player, k, l) by {
                let n = sq(k, l);
                lemma_bit_or(pw@, kn@, n);
                lemma_bit_or(pw@ | kn@, ki@, n);
                lemma_bit_or(pw@ | kn@ | ki@, rk@, n);
                lemma_bit_or(pw@ | kn@ | ki@ | rk@, bi@, n);
                lemma_bit_or(pw@ | kn@ | ki@ | rk@ | bi@, qu@, n);
            }
        }
        r
    }

    /// Whether the king of `player` is attacked by the opponent.
    pub fn is_in_check(&self, tables: &AttackTables, player: ChessPlayer) -> (r: bool)
        requires
            tables.wf(),
            self.wf(),
        ensures
            r == self.in_check_spec(player),
    {
        let attacked_by_opponent = self.get_attacked_positions(tables, player.get_opponent());
        let resulting = attacked_by_opponent.bit_and(
            self.get_piece_type_by_player(ChessPiece::King, player),
        );
        let r = resulting.val != 0;
        proof {
            let kb = self.player_board(player) & self.king@;
            if r {
                lemma_nonzero_has_bit(resulting@);
                let n = choose|n: u64| n < 64 && bit(resulting@, n);
                lemma_bit_and(attacked_by_opponent@, kb, n);
                let k = (n as int) / 8;
                let l = (n as int) % 8;
                assert(sq(k, l) == n);
                assert(on_board(k, l) && self.attacked_bit(player.opponent(), k, l) && bit(
                    kb,
                    sq(k, l),
                ));
            }
            if self.in_check_spec(player) {
                let (k, l) = choose|k: int, l: int|
                    #![trigger sq(k, l)]
                    on_board(k, l) && self.attacked_bit(player.opponent(), k, l) && bit(
                        kb,
                        sq(k, l),
                    );
                lemma_bit_and(attacked_by_opponent@, kb, sq(k, l));
                assert(bit(resulting@, sq(k, l)));
                assert(resulting@ != 0) by {
                    if resulting@ == 0 {
                        lemma_bit_zero(sq(k, l));
                    }
                }
            }
        }
        r
    }
}


impl Position {
    /// This position with the board of `piece` replaced by `v`.
    pub open spec fn with_piece_board(self, piece: ChessPiece, v: u64) -> Position {
        match piece {
            ChessPiece::Pawn => Position { pawn: Bitboard { val: v }, ..self },
            ChessPiece::Rook => Position { rook: Bitboard { val: v }, ..self },
            ChessPiece::Knight => Position { knight: Bitboard { val: v }, ..self },
            ChessPiece::Bishop => Position { bishop: Bitboard { val: v }, ..self },
            ChessPiece::Queen => Position { queen: Bitboard { val: v }, ..self },
            ChessPiece::King => Position { king: Bitboard { val: v }, ..self },
        }
    }

    /// The moving piece of a pseudo-legal move; a pawn as the placeholder on
    /// an empty source square.
    pub open spec fn mover_at(self, i: int, j: int) -> ChessPiece {
        match self.piece_at_spec(i, j) {
            Some(pc) => pc,
            None => ChessPiece::Pawn,
        }
    }

    /// What `make_move` demands of a move before it touches the position:
    /// distinct board squares, an occupied source held by the side to move,
    /// and a destination the piece's movement rules allow.
    pub open spec fn pseudo_legal(self, i: int, j: int, k: int, l: int) -> bool {
        &&& on_board(i, j)
        &&& on_board(k, l)
        &&& !(i == k && j == l)
        &&& bit(self.taken(), sq(i, j))
        &&& bit(self.player_board(self.side_to_move()), sq(i, j))
        &&& match self.piece_at_spec(i, j) {
            Some(pc) => self.move_bit(pc, i, j, self.side_to_move(), k, l),
            None => false,
        }
    }

    /// Whether the promotion rule fires: a pawn of the side to move arriving
    /// on its last rank.
    pub open spec fn promotes(self, i: int, j: int, k: int) -> bool {
        self.mover_at(i, j) == ChessPiece::Pawn && match self.side_to_move() {
            ChessPlayer::White => k == 7,
            ChessPlayer::Black => k == 0,
        }
    }

    /// The board mutation of `make_move`, side-to-move flag untouched: the
    /// color board follows the mover (and loses a captured White square),
    /// the victim's board loses the destination, the mover's board moves its
    /// square, and a promoting pawn is replaced with a queen.
    pub open spec fn apply_move_spec(self, i: int, j: int, k: int, l: int) -> Position {
        let src = 1u64 << sq(i, j);
        let dst = 1u64 << sq(k, l);
        let mover = self.mover_at(i, j);
        let victim = self.piece_at_spec(k, l);
        let w = match self.side_to_move() {
            ChessPlayer::White => (self.white@ & !src) | dst,
            ChessPlayer::Black => self.white@ & !dst,
        };
        let p1 = Position { white: Bitboard { val: w }, ..self };
        let p2 = match victim {
            Some(v) => p1.with_piece_board(v, p1.piece_board(v) & !dst),
            None => p1,
        };
        let p3 = p2.with_piece_board(mover, (p2.piece_board(mover) & !src) | dst);
        if self.promotes(i, j, k) {
            let p4 = p3.with_piece_board(ChessPiece::Pawn, p3.pawn@ & !dst);
            p4.with_piece_board(ChessPiece::Queen, p4.queen@ | dst)
        } else {
            p3
        }
    }

    /// This position with the side-to-move flag flipped.
    pub open spec fn flipped(self) -> Position {
        Position { other: self.other ^ 1, ..self }
    }

    /// A fully legal move: pseudo-legal, not a capture of the opposing king,
    /// and leaving the mover out of check.
    pub open spec fn legal_move_spec(self, i: int, j: int, k: int, l: int) -> bool {
        &&& self.pseudo_legal(i, j, k, l)
        &&& !bit(self.player_board(self.side_to_move().opponent()) & self.king@, sq(k, l))
        &&& !self.apply_move_spec(i, j, k, l).in_check_spec(self.side_to_move())
    }

    /// Clear square `(i, j)` in the board of `piece`.
    fn clear_piece_square(&mut self, piece: ChessPiece, i: usize, j: usize)
        requires
            i < 8,
            j < 8,
        ensures
            *final(self) == old(self).with_piece_board(
                piece,
                old(self).piece_board(piece) & !(1u64 << sq(i as int, j as int)),
            ),
    {
        match piece {
            ChessPiece::Pawn => self.pawn.clear(i, j),
            ChessPiece::Rook => self.rook.clear(i, j),
            ChessPiece::Knight => self.knight.clear(i, j),
            ChessPiece::Bishop => self.bishop.clear(i, j),
            ChessPiece::Queen => self.queen.clear(i, j),
            ChessPiece::King => self.king.clear(i, j),
        }
    }

    /// Set square `(i, j)` in the board of `piece`.
    fn set_piece_square(&mut self, piece: ChessPiece, i: usize, j: usize)
        requires
            i < 8,
            j < 8,
        ensures
            *final(self) == old(self).with_piece_board(
                piece,
                old(self).piece_board(piece) | (1u64 << sq(i as int, j as int)),
            ),
    {
        match piece {
            ChessPiece::Pawn => self.pawn.set(i, j),
            ChessPiece::Rook => self.rook.set(i, j),
            ChessPiece::Knight => self.knight.set(i, j),
            ChessPiece::Bishop => self.bishop.set(i, j),
            ChessPiece::Queen => self.queen.set(i, j),
            ChessPiece::King => self.king.set(i, j),
        }
    }
}

/// The occupied squares split into the six piece boards, square by square.
proof fn lemma_taken_parts(p: Position, n: u64)
    requires
        n < 64,
    ensures
        bit(p.taken(), n) == (bit(p.pawn@, n) || bit(p.rook@, n) || bit(p.knight@, n) || bit(
            p.bishop@,
            n,
        ) || bit(p.queen@, n) || bit(p.king@, n)),
{
    lemma_bit_or(p.pawn@, p.rook@, n);
    lemma_bit_or(p.pawn@ | p.rook@, p.knight@, n);
    lemma_bit_or(p.pawn@ | p.rook@ | p.knight@, p.bishop@, n);
    lemma_bit_or(p.pawn@ | p.rook@ | p.knight@ | p.bishop@, p.queen@, n);
    lemma_bit_or(p.pawn@ | p.rook@ | p.knight@ | p.bishop@ | p.queen@, p.king@, n);
}

/// A pawn move lands seven, eight, nine or sixteen squares ahead of its
/// source (behind, for Black) and never on the mover's own squares.
proof fn lemma_pawn_move_shape(p: Position, src: u64, d: u64, player: ChessPlayer)
    requires
        src < 64,
        d < 64,
        bit(p.pawn_targets(1u64 << src, player), d),
    ensures
        !bit(p.player_board(player), d),
        player == ChessPlayer::White ==> d == src + 7 || d == src + 8 || d == src + 9 || d == src
            + 16,
        player == ChessPlayer::Black ==> src == d + 7 || src == d + 8 || src == d + 9 || src == d
            + 16,
{
    broadcast use group_bit_lemmas;

    let pw = 1u64 << src;
    let fr = p.free();
    match player {
        ChessPlayer::White => {
            let c1 = (pw << 8) & fr;
            let c2 = ((pw << 7) | (pw << 9)) & p.black();
            let c3 = ((c1 << 8) & fr);
            lemma_bit_and(c1 | c2 | c3, !p.white@, d);
            lemma_bit_not(p.white@, d);
            lemma_bit_or(c1 | c2, c3, d);
            lemma_bit_or(c1, c2, d);
        },
        ChessPlayer::Black => {
            let c1 = (pw >> 8) & fr;
            let c2 = ((pw >> 7) | (pw >> 9)) & p.white@;
            let c3 = ((c1 >> 8) & fr);
            lemma_bit_and(c1 | c2 | c3, !p.black(), d);
            lemma_bit_not(p.black(), d);
            lemma_bit_or(c1 | c2, c3, d);
            lemma_bit_or(c1, c2, d);
        },
    }
}

/// A knight move lands fifteen or seventeen squares away (the engine's four
/// shift offsets) and never on the mover's own squares.
proof fn lemma_knight_move_shape(p: Position, src: u64, d: u64, player: ChessPlayer)
    requires
        src < 64,
        d < 64,
        bit(p.knight_targets(1u64 << src, player), d),
    ensures
        !bit(p.player_board(player), d),
        d == src + 15 || d == src + 17 || src == d + 15 || src == d + 17,
{
    broadcast use group_bit_lemmas;

    let pw = 1u64 << src;
    lemma_bit_and((pw << 15) | (pw << 17) | (pw >> 15) | (pw >> 17), !p.player_board(player), d);
    lemma_bit_not(p.player_board(player), d);
}

/// No pseudo-legal destination is a square of the moving side.
proof fn lemma_move_dst_not_own(p: Position, pc: ChessPiece, i: int, j: int, k: int, l: int)
    requires
        on_board(i, j),
        on_board(k, l),
        p.move_bit(pc, i, j, p.side_to_move(), k, l),
    ensures
        !bit(p.player_board(p.side_to_move()), sq(k, l)),
{
    let stm = p.side_to_move();
    match pc {
        ChessPiece::Pawn => {
            lemma_pawn_move_shape(p, sq(i, j), sq(k, l), stm);
        },
        ChessPiece::Knight => {
            lemma_knight_move_shape(p, sq(i, j), sq(k, l), stm);
        },
        _ => {},
    }
}

/// No pseudo-legal destination equals its source square.
proof fn lemma_move_dst_not_src(p: Position, pc: ChessPiece, i: int, j: int, k: int, l: int)
    requires
        on_board(i, j),
        on_board(k, l),
        p.move_bit(pc, i, j, p.side_to_move(), k, l),
    ensures
        !(i == k && j == l),
{
    let stm = p.side_to_move();
    match pc {
        ChessPiece::Pawn => {
            lemma_pawn_move_shape(p, sq(i, j), sq(k, l), stm);
        },
        ChessPiece::Knight => {
            lemma_knight_move_shape(p, sq(i, j), sq(k, l), stm);
        },
        _ => {},
    }
}


/// The occupant of square `n` after the move `(i, j)` to `(k, l)`: the source
/// empties, the destination holds exactly the arriving piece (a queen when
/// the move promotes), and every other square keeps its occupant.
pub open spec fn apply_board_bit(
    p: Position,
    i: int,
    j: int,
    k: int,
    l: int,
    q: ChessPiece,
    n: u64,
) -> bool {
    if n == sq(i, j) {
        false
    } else if n == sq(k, l) {
        if p.promotes(i, j, k) {
            q == ChessPiece::Queen
        } else {
            q == p.mover_at(i, j)
        }
    } else {
        bit(p.piece_board(q), n)
    }
}

/// The White square set after the move: it follows a White mover and loses a
/// captured White square under a Black mover.
pub open spec fn apply_white_bit(p: Position, i: int, j: int, k: int, l: int, n: u64) -> bool {
    match p.side_to_move() {
        ChessPlayer::White => n == sq(k, l) || (bit(p.white@, n) && n != sq(i, j)),
        ChessPlayer::Black => bit(p.white@, n) && n != sq(k, l),
    }
}

/// A piece board holding square `n` leaves no room there for any other kind.
proof fn lemma_unique_occupant(p: Position, n: u64, q: ChessPiece)
    requires
        p.disjoint_pieces(),
        n < 64,
        bit(p.piece_board(q), n),
    ensures
        forall|q2: ChessPiece| q2 != q ==> !bit(p.piece_board(q2), n),
{
    assert forall|q2: ChessPiece| q2 != q implies !bit(p.piece_board(q2), n) by {
        if bit(p.piece_board(q2), n) {
            assert(p.boards_at(n) >= 2);
        }
    }
}

/// Square 'n' lies on rank 0 or rank 7 exactly when its index is below 8 or
/// at least 56.
proof fn lemma_edge_ranks_bit(n: u64)
    requires
        n < 64,
    ensures
        bit(edge_ranks(), n) == (n < 8 || n >= 56),
{
    assert(n < 64 ==> (0xFF00_0000_0000_00FFu64 & (1u64 << n) != 0) == (n < 8 || n >= 56))
        by (bit_vector);
}

/// Square-by-square description of every board after a legal board mutation.
#[verifier::rlimit(100)]
proof fn lemma_apply_move_boards(p: Position, i: int, j: int, k: int, l: int)
    requires
        p.wf(),
        p.pseudo_legal(i, j, k, l),
        !bit(p.player_board(p.side_to_move().opponent()) & p.king@, sq(k, l)),
    ensures
        forall|n: u64|
            n < 64 ==> #[trigger] bit(p.apply_move_spec(i, j, k, l).pawn@, n) == apply_board_bit(
                p, i, j, k, l, ChessPiece::Pawn, n),
        forall|n: u64|
            n < 64 ==> #[trigger] bit(p.apply_move_spec(i, j, k, l).rook@, n) == apply_board_bit(
                p, i, j, k, l, ChessPiece::Rook, n),
        forall|n: u64|
            n < 64 ==> #[trigger] bit(p.apply_move_spec(i, j, k, l).knight@, n) == apply_board_bit(
                p, i, j, k, l, ChessPiece::Knight, n),
        forall|n: u64|
            n < 64 ==> #[trigger] bit(p.apply_move_spec(i, j, k, l).bishop@, n) == apply_board_bit(
                p, i, j, k, l, ChessPiece::Bishop, n),
        forall|n: u64|
            n < 64 ==> #[trigger] bit(p.apply_move_spec(i, j, k, l).queen@, n) == apply_board_bit(
                p, i, j, k, l, ChessPiece::Queen, n),
        forall|n: u64|
            n < 64 ==> #[trigger] bit(p.apply_move_spec(i, j, k, l).king@, n) == apply_board_bit(
                p, i, j, k, l, ChessPiece::King, n),
        forall|n: u64|
            n < 64 ==> #[trigger] bit(p.apply_move_spec(i, j, k, l).white@, n) == apply_white_bit(
                p, i, j, k, l, n),
        p.apply_move_spec(i, j, k, l).other == p.other,
        !bit(p.king@, sq(k, l)),
{
    let src = sq(i, j);
    let dst = sq(k, l);
    let stm = p.side_to_move();
    let mover = p.mover_at(i, j);
    let victim = p.piece_at_spec(k, l);
    let moved = p.apply_move_spec(i, j, k, l);
    assert(src != dst);
    assert(bit(p.piece_board(mover), src));
    lemma_unique_occupant(p, src, mover);
    lemma_move_dst_not_own(p, mover, i, j, k, l);
    lemma_taken_parts(p, dst);
    // the destination never holds a king: not the mover's own, not the
    // opponent's by precondition
    assert(!bit(p.king@, dst)) by {
        if bit(p.king@, dst) {
            lemma_bit_and(p.player_board(stm.opponent()), p.king@, dst);
            assert(bit(p.taken(), dst));
            lemma_bit_and(p.taken(), !p.white@, dst);
            lemma_bit_not(p.white@, dst);
            assert(bit(p.white@, dst) || bit(p.black(), dst));
        }
    }
    // the victim's board is the only one holding the destination
    if victim is Some {
        let v = victim->0;
        assert(bit(p.piece_board(v), dst));
        lemma_unique_occupant(p, dst, v);
    } else {
        assert(!bit(p.pawn@, dst) && !bit(p.rook@, dst) && !bit(p.knight@, dst) && !bit(
            p.bishop@,
            dst,
        ) && !bit(p.queen@, dst) && !bit(p.king@, dst));
    }
    // pointwise facts for each constructed board value
    let base_m = match victim {
        Some(v) => if v == mover {
            p.piece_board(mover) & !(1u64 << dst)
        } else {
            p.piece_board(mover)
        },
        None => p.piece_board(mover),
    };
    match victim {
        Some(v) => {
            lemma_clear_bit_squares(p.piece_board(v), p.piece_board(v) & !(1u64 << dst), dst);
        },
        None => {},
    }
    lemma_clear_bit_squares(base_m, base_m & !(1u64 << src), src);
    lemma_set_bit_squares(
        base_m & !(1u64 << src),
        (base_m & !(1u64 << src)) | (1u64 << dst),
        dst,
    );
    if p.promotes(i, j, k) {
        let pawn_m = (base_m & !(1u64 << src)) | (1u64 << dst);
        lemma_clear_bit_squares(pawn_m, pawn_m & !(1u64 << dst), dst);
        lemma_set_bit_squares(p.queen@, p.queen@ | (1u64 << dst), dst);
    }
    match stm {
        ChessPlayer::White => {
            lemma_clear_bit_squares(p.white@, p.white@ & !(1u64 << src), src);
            lemma_set_bit_squares(
                p.white@ & !(1u64 << src),
                (p.white@ & !(1u64 << src)) | (1u64 << dst),
                dst,
            );
        },
        ChessPlayer::Black => {
            lemma_clear_bit_squares(p.white@, p.white@ & !(1u64 << dst), dst);
        },
    }
    assert forall|n: u64| n < 64 implies #[trigger] bit(moved.pawn@, n) == apply_board_bit(
        p, i, j, k, l, ChessPiece::Pawn, n) by {
        mover_board_cases(p, i, j, k, l, ChessPiece::Pawn, n);
    }
    assert forall|n: u64| n < 64 implies #[trigger] bit(moved.rook@, n) == apply_board_bit(
        p, i, j, k, l, ChessPiece::Rook, n) by {
        mover_board_cases(p, i, j, k, l, ChessPiece::Rook, n);
    }
    assert forall|n: u64| n < 64 implies #[trigger] bit(moved.knight@, n) == apply_board_bit(
        p, i, j, k, l, ChessPiece::Knight, n) by {
        mover_board_cases(p, i, j, k, l, ChessPiece::Knight, n);
    }
    assert forall|n: u64| n < 64 implies #[trigger] bit(moved.bishop@, n) == apply_board_bit(
        p, i, j, k, l, ChessPiece::Bishop, n) by {
        mover_board_cases(p, i, j, k, l, ChessPiece::Bishop, n);
    }
    assert forall|n: u64| n < 64 implies #[trigger] bit(moved.queen@, n) == apply_board_bit(
        p, i, j, k, l, ChessPiece::Queen, n) by {
        mover_board_cases(p, i, j, k, l, ChessPiece::Queen, n);
    }
    assert forall|n: u64| n < 64 implies #[trigger] bit(moved.king@, n) == apply_board_bit(
        p, i, j, k, l, ChessPiece::King, n) by {
        mover_board_cases(p, i, j, k, l, ChessPiece::King, n);
    }
}

/// One board of the position after a move, at one square: the case analysis
/// over victim, mover and promotion.
#[verifier::rlimit(100)]
proof fn mover_board_cases(p: Position, i: int, j: int, k: int, l: int, q: ChessPiece, n: u64)
    requires
        p.wf(),
        p.pseudo_legal(i, j, k, l),
        !bit(p.player_board(p.side_to_move().opponent()) & p.king@, sq(k, l)),
        n < 64,
    ensures
        bit(p.apply_move_spec(i, j, k, l).piece_board(q), n) == apply_board_bit(
            p, i, j, k, l, q, n),
{
    broadcast use group_bit_lemmas;

    let src = sq(i, j);
    let dst = sq(k, l);
    let stm = p.side_to_move();
    let mover = p.mover_at(i, j);
    let victim = p.piece_at_spec(k, l);
    let moved = p.apply_move_spec(i, j, k, l);
    assert(src != dst);
    assert(bit(p.piece_board(mover), src));
    lemma_unique_occupant(p, src, mover);
    lemma_move_dst_not_own(p, mover, i, j, k, l);
    lemma_taken_parts(p, dst);
    assert(!bit(p.king@, dst)) by {
        if bit(p.king@, dst) {
            lemma_bit_and(p.player_board(stm.opponent()), p.king@, dst);
            assert(bit(p.taken(), dst));
            lemma_bit_and(p.taken(), !p.white@, dst);
            lemma_bit_not(p.white@, dst);
            assert(bit(p.white@, dst) || bit(p.black(), dst));
        }
    }
    if victim is Some {
        let v = victim->0;
        assert(bit(p.piece_board(v), dst));
        lemma_unique_occupant(p, dst, v);
    } else {
        assert(!bit(p.pawn@, dst) && !bit(p.rook@, dst) && !bit(p.knight@, dst) && !bit(
            p.bishop@,
            dst,
        ) && !bit(p.queen@, dst) && !bit(p.king@, dst));
    }
    // rebuild the board of `q` step by step, as the move specification does
    let w = match stm {
        ChessPlayer::White => (p.white@ & !(1u64 << src)) | (1u64 << dst),
        ChessPlayer::Black => p.white@ & !(1u64 << dst),
    };
    let p1 = Position { white: Bitboard { val: w }, ..p };
    assert(forall|qq: ChessPiece| #[trigger] p1.piece_board(qq) == p.piece_board(qq));
    let p2 = match victim {
        Some(v) => p1.with_piece_board(v, p1.piece_board(v) & !(1u64 << dst)),
        None => p1,
    };
    match victim {
        Some(v) => {
            lemma_with_piece_board(p1, v, p1.piece_board(v) & !(1u64 << dst), q);
            lemma_with_piece_board(p1, v, p1.piece_board(v) & !(1u64 << dst), mover);
            lemma_clear_bit_squares(p.piece_board(v), p.piece_board(v) & !(1u64 << dst), dst);
        },
        None => {},
    }
    let p3 = p2.with_piece_board(mover, (p2.piece_board(mover) & !(1u64 << src)) | (1u64 << dst));
    lemma_with_piece_board(
        p2,
        mover,
        (p2.piece_board(mover) & !(1u64 << src)) | (1u64 << dst),
        q,
    );
    lemma_clear_bit_squares(
        p2.piece_board(mover),
        p2.piece_board(mover) & !(1u64 << src),
        src,
    );
    lemma_set_bit_squares(
        p2.piece_board(mover) & !(1u64 << src),
        (p2.piece_board(mover) & !(1u64 << src)) | (1u64 << dst),
        dst,
    );
    if p.promotes(i, j, k) {
        lemma_with_piece_board(
            p2,
            mover,
            (p2.piece_board(mover) & !(1u64 << src)) | (1u64 << dst),
            ChessPiece::Pawn,
        );
        lemma_with_piece_board(
            p2,
            mover,
            (p2.piece_board(mover) & !(1u64 << src)) | (1u64 << dst),
            ChessPiece::Queen,
        );
        let p4 = p3.with_piece_board(ChessPiece::Pawn, p3.pawn@ & !(1u64 << dst));
        lemma_with_piece_board(p3, ChessPiece::Pawn, p3.pawn@ & !(1u64 << dst), q);
        lemma_with_piece_board(p3, ChessPiece::Pawn, p3.pawn@ & !(1u64 << dst), ChessPiece::Queen);
        lemma_clear_bit_squares(p3.pawn@, p3.pawn@ & !(1u64 << dst), dst);
        let p5 = p4.with_piece_board(ChessPiece::Queen, p4.queen@ | (1u64 << dst));
        lemma_with_piece_board(p4, ChessPiece::Queen, p4.queen@ | (1u64 << dst), q);
        lemma_set_bit_squares(p4.queen@, p4.queen@ | (1u64 << dst), dst);
        assert(moved == p5);
        assert(mover == ChessPiece::Pawn);
    } else {
        assert(moved == p3);
    }
}

/// Replacing one piece board changes that board alone.
proof fn lemma_with_piece_board(p: Position, v: ChessPiece, x: u64, q: ChessPiece)
    ensures
        p.with_piece_board(v, x).piece_board(q) == if q == v {
            x
        } else {
            p.piece_board(q)
        },
        p.with_piece_board(v, x).white@ == p.white@,
        p.with_piece_board(v, x).other == p.other,
{
}

/// The occupied squares after a move: the source empties, the destination
/// fills, everything else keeps.
proof fn lemma_apply_move_taken(p: Position, i: int, j: int, k: int, l: int)
    requires
        p.wf(),
        p.pseudo_legal(i, j, k, l),
        !bit(p.player_board(p.side_to_move().opponent()) & p.king@, sq(k, l)),
    ensures
        forall|n: u64|
            n < 64 ==> #[trigger] bit(p.apply_move_spec(i, j, k, l).taken(), n) == (if n == sq(
                i,
                j,
            ) {
                false
            } else if n == sq(k, l) {
                true
            } else {
                bit(p.taken(), n)
            }),
{
    let src = sq(i, j);
    let dst = sq(k, l);
    let moved = p.apply_move_spec(i, j, k, l);
    let arriving = if p.promotes(i, j, k) {
        ChessPiece::Queen
    } else {
        p.mover_at(i, j)
    };
    lemma_apply_move_boards(p, i, j, k, l);
    assert forall|n: u64| n < 64 implies #[trigger] bit(moved.taken(), n) == (if n == src {
        false
    } else if n == dst {
        true
    } else {
        bit(p.taken(), n)
    }) by {
        lemma_taken_parts(moved, n);
        lemma_taken_parts(p, n);
        if n == dst {
            assert(bit(moved.piece_board(arriving), n));
        }
    }
}

/// A pseudo-legal move that does not capture a king preserves the position
/// invariant: the piece boards stay pairwise disjoint, every White square
/// stays occupied, both kings survive as single squares, and no pawn ends on
/// rank 0 or rank 7.
#[verifier::rlimit(100)]
pub proof fn lemma_apply_move_wf(p: Position, i: int, j: int, k: int, l: int)
    requires
        p.wf(),
        p.pseudo_legal(i, j, k, l),
        !bit(p.player_board(p.side_to_move().opponent()) & p.king@, sq(k, l)),
    ensures
        p.apply_move_spec(i, j, k, l).wf(),
        p.apply_move_spec(i, j, k, l).other == p.other,
{
    let src = sq(i, j);
    let dst = sq(k, l);
    let stm = p.side_to_move();
    let mover = p.mover_at(i, j);
    let moved = p.apply_move_spec(i, j, k, l);
    let arriving = if p.promotes(i, j, k) {
        ChessPiece::Queen
    } else {
        mover
    };
    lemma_apply_move_boards(p, i, j, k, l);
    lemma_apply_move_taken(p, i, j, k, l);
    lemma_move_dst_not_own(p, mover, i, j, k, l);
    assert(bit(p.piece_board(mover), src));
    lemma_unique_occupant(p, src, mover);
    assert(src != dst);
    // disjointness
    assert forall|n: u64| n < 64 implies #[trigger] moved.boards_at(n) <= 1 by {
        if n != src && n != dst {
            assert(p.boards_at(n) <= 1);
        }
    }
    // every White square stays occupied
    assert(moved.white@ & !moved.taken() == 0) by {
        assert forall|n: u64| n < 64 implies !bit(moved.white@ & !moved.taken(), n) by {
            lemma_bit_and(moved.white@, !moved.taken(), n);
            lemma_bit_not(moved.taken(), n);
            assert(bit(moved.white@, n) == apply_white_bit(p, i, j, k, l, n));
            if bit(moved.white@, n) {
                if n == src {
                    lemma_bit_and(p.taken(), !p.white@, n);
                    lemma_bit_not(p.white@, n);
                    assert(false);
                } else if n == dst {
                    assert(bit(moved.taken(), n));
                } else {
                    lemma_bit_and(p.white@, !p.taken(), n);
                    lemma_bit_not(p.taken(), n);
                    lemma_bit_zero(n);
                    assert(bit(p.taken(), n));
                    assert(bit(moved.taken(), n));
                }
            }
        }
        lemma_no_bits_zero(moved.white@ & !moved.taken());
    }
    lemma_apply_move_kings(p, i, j, k, l);
    // no pawn on an edge rank
    assert(moved.pawn@ & edge_ranks() == 0) by {
        assert forall|n: u64| n < 64 implies !bit(moved.pawn@ & edge_ranks(), n) by {
            lemma_bit_and(moved.pawn@, edge_ranks(), n);
            lemma_edge_ranks_bit(n);
            if bit(moved.pawn@, n) {
                if n == dst {
                    assert(mover == ChessPiece::Pawn && !p.promotes(i, j, k));
                    lemma_pawn_move_shape(p, src, dst, stm);
                    assert(bit(p.pawn@, src));
                    lemma_bit_and(p.pawn@, edge_ranks(), src);
                    lemma_edge_ranks_bit(src);
                    lemma_bit_zero(src);
                    assert(8 <= src < 56);
                    assert(dst < 56) by {
                        if dst >= 56 {
                            assert(k == 7);
                        }
                    }
                    assert(dst >= 8) by {
                        if dst < 8 {
                            assert(k == 0);
                        }
                    }
                } else if n != src {
                    lemma_bit_and(p.pawn@, edge_ranks(), n);
                    lemma_bit_zero(n);
                }
            }
        }
        lemma_no_bits_zero(moved.pawn@ & edge_ranks());
    }
}

/// Both kings survive a legal board mutation as single squares: the moving
/// side's king follows a king move and stays put otherwise, and the other
/// king is never captured.
#[verifier::rlimit(100)]
proof fn lemma_apply_move_kings(p: Position, i: int, j: int, k: int, l: int)
    requires
        p.wf(),
        p.pseudo_legal(i, j, k, l),
        !bit(p.player_board(p.side_to_move().opponent()) & p.king@, sq(k, l)),
    ensures
        single_bit(p.apply_move_spec(i, j, k, l).white@ & p.apply_move_spec(i, j, k, l).king@),
        single_bit(p.apply_move_spec(i, j, k, l).black() & p.apply_move_spec(i, j, k, l).king@),
        p.side_to_move() == ChessPlayer::White && p.mover_at(i, j) == ChessPiece::King ==> p
            .apply_move_spec(i, j, k, l).white@ & p.apply_move_spec(i, j, k, l).king@ == (1u64
            << sq(k, l)),
        p.side_to_move() == ChessPlayer::Black && p.mover_at(i, j) == ChessPiece::King ==> p
            .apply_move_spec(i, j, k, l).black() & p.apply_move_spec(i, j, k, l).king@ == (1u64
            << sq(k, l)),
{
    let src = sq(i, j);
    let dst = sq(k, l);
    let stm = p.side_to_move();
    let mover = p.mover_at(i, j);
    let moved = p.apply_move_spec(i, j, k, l);
    lemma_apply_move_boards(p, i, j, k, l);
    lemma_apply_move_taken(p, i, j, k, l);
    lemma_move_dst_not_own(p, mover, i, j, k, l);
    assert(bit(p.piece_board(mover), src));
    lemma_unique_occupant(p, src, mover);
    assert(src != dst);
    let wk = choose|n: u64| n < 64 && (p.white@ & p.king@) == (1u64 << n);
    let bk = choose|n: u64| n < 64 && (p.black() & p.king@) == (1u64 << n);
    assert forall|n: u64| n < 64 implies (bit(p.white@, n) && bit(p.king@, n)) == (n == wk) by {
        lemma_bit_and(p.white@, p.king@, n);
        lemma_bit_single(wk, n);
    }
    assert forall|n: u64| n < 64 implies (bit(p.taken(), n) && !bit(p.white@, n) && bit(
        p.king@,
        n,
    )) == (n == bk) by {
        lemma_bit_and(p.black(), p.king@, n);
        lemma_bit_and(p.taken(), !p.white@, n);
        lemma_bit_not(p.white@, n);
        lemma_bit_single(bk, n);
    }
    let new_wk = if stm == ChessPlayer::White && mover == ChessPiece::King {
        dst
    } else {
        wk
    };
    let new_bk = if stm == ChessPlayer::Black && mover == ChessPiece::King {
        dst
    } else {
        bk
    };
    assert forall|n: u64| n < 64 implies (bit(moved.white@, n) && bit(moved.king@, n)) == (n
        == new_wk) by {
        assert(bit(moved.white@, n) == apply_white_bit(p, i, j, k, l, n));
        assert(bit(moved.king@, n) == apply_board_bit(p, i, j, k, l, ChessPiece::King, n));
        lemma_bit_and(p.white@, p.king@, n);
        lemma_bit_single(wk, n);
        lemma_bit_and(p.white@, p.king@, src);
        lemma_bit_single(wk, src);
        lemma_bit_and(p.white@, p.king@, dst);
        lemma_bit_single(wk, dst);
        lemma_bit_and(p.taken(), !p.white@, src);
        lemma_bit_not(p.white@, src);
    }
    assert(moved.white@ & moved.king@ == (1u64 << new_wk)) by {
        assert forall|n: u64| n < 64 implies bit(moved.white@ & moved.king@, n) == bit(
            1u64 << new_wk,
            n,
        ) by {
            lemma_bit_and(moved.white@, moved.king@, n);
            lemma_bit_single(new_wk, n);
        }
        lemma_bit_ext(moved.white@ & moved.king@, 1u64 << new_wk);
    }
    assert forall|n: u64| n < 64 implies (bit(moved.taken(), n) && !bit(moved.white@, n) && bit(
        moved.king@,
        n,
    )) == (n == new_bk) by {
        assert(bit(moved.white@, n) == apply_white_bit(p, i, j, k, l, n));
        assert(bit(moved.king@, n) == apply_board_bit(p, i, j, k, l, ChessPiece::King, n));
        assert(bit(moved.taken(), n) == (if n == src {
            false
        } else if n == dst {
            true
        } else {
            bit(p.taken(), n)
        }));
        lemma_bit_and(p.black(), p.king@, n);
        lemma_bit_and(p.taken(), !p.white@, n);
        lemma_bit_not(p.white@, n);
        lemma_bit_single(bk, n);
        lemma_bit_and(p.black(), p.king@, src);
        lemma_bit_and(p.taken(), !p.white@, src);
        lemma_bit_not(p.white@, src);
        lemma_bit_single(bk, src);
        lemma_bit_and(p.black(), p.king@, dst);
        lemma_bit_and(p.taken(), !p.white@, dst);
        lemma_bit_not(p.white@, dst);
        lemma_bit_single(bk, dst);
        lemma_bit_and(p.white@, p.king@, src);
        lemma_bit_single(wk, src);
    }
    assert(moved.black() & moved.king@ == (1u64 << new_bk)) by {
        assert forall|n: u64| n < 64 implies bit(moved.black() & moved.king@, n) == bit(
            1u64 << new_bk,
            n,
        ) by {
            lemma_bit_and(moved.black(), moved.king@, n);
            lemma_bit_and(moved.taken(), !moved.white@, n);
            lemma_bit_not(moved.white@, n);
            lemma_bit_single(new_bk, n);
        }
        lemma_bit_ext(moved.black() & moved.king@, 1u64 << new_bk);
    }
}


/// Writing the same piece board twice keeps only the second value.
proof fn lemma_with_board_twice(p: Position, v: ChessPiece, x: u64, y: u64)
    ensures
        p.with_piece_board(v, x).with_piece_board(v, y) == p.with_piece_board(v, y),
{
}

impl Position {
    /// Attempt the move from `(i, j)` to `(k, l)` for the side to move. The
    /// boards are updated first; if the mover is then in check the move is
    /// illegal and `false` comes back with the boards left in that state, for
    /// the caller to discard. Otherwise the side to move flips and `true`
    /// comes back. Either way the position invariant holds afterwards.
    pub fn make_move(
        &mut self,
        tables: &AttackTables,
        i: usize,
        j: usize,
        k: usize,
        l: usize,
    ) -> (r: bool)
        requires
            tables.wf(),
            old(self).wf(),
            i < 8,
            j < 8,
            k < 8,
            l < 8,
            old(self).pseudo_legal(i as int, j as int, k as int, l as int),
            !bit(
                old(self).player_board(old(self).side_to_move().opponent()) & old(self).king@,
                sq(k as int, l as int),
            ),
        ensures
            ({
                let moved = old(self).apply_move_spec(i as int, j as int, k as int, l as int);
                &&& moved.wf()
                &&& r == !moved.in_check_spec(old(self).side_to_move())
                &&& (r ==> *final(self) == moved.flipped())
                &&& (!r ==> *final(self) == moved)
                &&& final(self).wf()
                &&& (r ==> final(self).side_to_move() == old(self).side_to_move().opponent())
                &&& (!r ==> final(self).side_to_move() == old(self).side_to_move())
            }),
    {
        let ghost orig = *self;
        let ghost src = sq(i as int, j as int);
        let ghost dst = sq(k as int, l as int);
        let ghost moved = orig.apply_move_spec(i as int, j as int, k as int, l as int);
        let chess_piece_opt = self.get_piece_on_position(i, j);
        proof {
            lemma_taken_parts(orig, src);
        }
        let chess_piece = chess_piece_opt.unwrap();
        let player_on_move = self.get_player_on_move();
        let eliminated = self.get_piece_on_position(k, l);
        if player_on_move == ChessPlayer::White {
            self.white.clear(i, j);
            self.white.set(k, l);
        } else {
            if self.white.is_set(k, l) {
                self.white.clear(k, l);
            } else {
                proof {
                    lemma_clear_bit_squares(orig.white@, orig.white@ & !(1u64 << dst), dst);
                    assert forall|n: u64| n < 64 implies bit(orig.white@, n) == bit(
                        orig.white@ & !(1u64 << dst),
                        n,
                    ) by {}
                    lemma_bit_ext(orig.white@, orig.white@ & !(1u64 << dst));
                }
            }
        }
        let ghost p1 = Position {
            white: Bitboard {
                val: match orig.side_to_move() {
                    ChessPlayer::White => (orig.white@ & !(1u64 << src)) | (1u64 << dst),
                    ChessPlayer::Black => orig.white@ & !(1u64 << dst),
                },
            },
            ..orig
        };
        proof {
            assert(*self == p1);
        }
        match eliminated {
            Some(v) => {
                self.clear_piece_square(v, k, l);
            },
            None => {},
        }
        let ghost p2 = match orig.piece_at_spec(k as int, l as int) {
            Some(v) => p1.with_piece_board(v, p1.piece_board(v) & !(1u64 << dst)),
            None => p1,
        };
        proof {
            assert(*self == p2);
        }
        self.clear_piece_square(chess_piece, i, j);
        self.set_piece_square(chess_piece, k, l);
        let ghost p3 = p2.with_piece_board(
            chess_piece,
            (p2.piece_board(chess_piece) & !(1u64 << src)) | (1u64 << dst),
        );
        proof {
            lemma_with_board_twice(
                p2,
                chess_piece,
                p2.piece_board(chess_piece) & !(1u64 << src),
                (p2.with_piece_board(
                    chess_piece,
                    p2.piece_board(chess_piece) & !(1u64 << src),
                )).piece_board(chess_piece) | (1u64 << dst),
            );
            lemma_with_piece_board(
                p2,
                chess_piece,
                p2.piece_board(chess_piece) & !(1u64 << src),
                chess_piece,
            );
            assert(*self == p3);
        }
        if chess_piece == ChessPiece::Pawn {
            match player_on_move {
                ChessPlayer::White => {
                    if k == 7 {
                        self.clear_piece_square(ChessPiece::Pawn, k, l);
                        self.set_piece_square(ChessPiece::Queen, k, l);
                    }
                },
                ChessPlayer::Black => {
                    if k == 0 {
                        self.clear_piece_square(ChessPiece::Pawn, k, l);
                        self.set_piece_square(ChessPiece::Queen, k, l);
                    }
                },
            }
        }
        proof {
            assert(*self == moved);
            lemma_apply_move_wf(orig, i as int, j as int, k as int, l as int);
            assert(moved.side_to_move() == orig.side_to_move());
        }
        if self.is_in_check(tables, player_on_move) {
            return false;
        }
        self.change_player_on_move();
        proof {
            assert(*self == moved.flipped());
            let o = moved.other;
            assert(((o ^ 1) & 1 == 0) == (o & 1 != 0)) by (bit_vector);
            let fl = moved.flipped();
            assert forall|n: u64| n < 64 implies #[trigger] fl.boards_at(n) <= 1 by {
                assert(fl.boards_at(n) == moved.boards_at(n));
            }
            assert(fl.wf());
        }
        true
    }
}


/// The rank of a move in the order the move list is produced: source square
/// index first, then destination square index.
pub open spec fn move_key(m: (usize, usize, usize, usize)) -> int {
    (m.0 * 8 + m.1) * 64 + (m.2 * 8 + m.3)
}

impl Position {
    /// Whether any fully legal move exists for the side to move.
    pub open spec fn has_legal_move(self) -> bool {
        exists|a: int, b: int, c: int, d: int|
            #![trigger self.legal_move_spec(a, b, c, d)]
            0 <= a < 8 && 0 <= b < 8 && 0 <= c < 8 && 0 <= d < 8 && self.legal_move_spec(
                a,
                b,
                c,
                d,
            )
    }

    /// Assemble a position from its eight stored words.
    pub fn new(
        white: Bitboard,
        pawn: Bitboard,
        rook: Bitboard,
        knight: Bitboard,
        bishop: Bitboard,
        queen: Bitboard,
        king: Bitboard,
        other: u64,
    ) -> (r: Position)
        ensures
            r == (Position { white, pawn, rook, knight, bishop, queen, king, other }),
    {
        Position { white, pawn, rook, knight, bishop, queen, king, other }
    }

    /// Every fully legal move of the side to move, as four board coordinates
    /// `(from-row, from-col, to-row, to-col)`: each entry is legal, every
    /// legal move appears, and no entry repeats.
    #[verifier::rlimit(100)]
    pub fn get_valid_moves(&self, tables: &AttackTables) -> (r: Vec<(usize, usize, usize, usize)>)
        requires
            self.wf(),
            tables.wf(),
        ensures
            forall|idx: int|
                0 <= idx < r@.len() ==> {
                    let m = #[trigger] r@[idx];
                    m.0 < 8 && m.1 < 8 && m.2 < 8 && m.3 < 8 && self.legal_move_spec(
                        m.0 as int,
                        m.1 as int,
                        m.2 as int,
                        m.3 as int,
                    )
                },
            forall|a: int, b: int, c: int, d: int|
                #![trigger self.legal_move_spec(a, b, c, d)]
                0 <= a < 8 && 0 <= b < 8 && 0 <= c < 8 && 0 <= d < 8 && self.legal_move_spec(
                    a,
                    b,
                    c,
                    d,
                ) ==> r@.contains(((a as usize), (b as usize), (c as usize), (d as usize))),
            forall|t1: int, t2: int| 0 <= t1 < t2 < r@.len() ==> r@[t1] != r@[t2],
    {
        let player_on_move = self.get_player_on_move();
        let curr_player_pieces = self.get_pieces_of_player(player_on_move);
        let opp_king = self.get_piece_type_by_player(
            ChessPiece::King,
            player_on_move.get_opponent(),
        );
        let pieces_index = curr_player_pieces.get_ones();
        let mut valid_moves: Vec<(usize, usize, usize, usize)> = Vec::new();
        let mut x: usize = 0;
        while x < pieces_index.len()
            invariant
                self.wf(),
                tables.wf(),
                player_on_move == self.side_to_move(),
                curr_player_pieces@ == self.player_board(self.side_to_move()),
                opp_king@ == self.player_board(self.side_to_move().opponent()) & self.king@,
                x <= pieces_index@.len(),
                forall|idx: int|
                    0 <= idx < pieces_index@.len() ==> #[trigger] pieces_index@[idx] < 64 && bit(
                        curr_player_pieces@,
                        pieces_index@[idx] as u64,
                    ),
                forall|m: u64|
                    m < 64 && bit(curr_player_pieces@, m) ==> pieces_index@.contains(m as usize),
                forall|x1: int, x2: int|
                    0 <= x1 < x2 < pieces_index@.len() ==> pieces_index@[x1] < pieces_index@[x2],
                forall|idx: int|
                    0 <= idx < valid_moves@.len() ==> {
                        let m = #[trigger] valid_moves@[idx];
                        m.0 < 8 && m.1 < 8 && m.2 < 8 && m.3 < 8 && self.legal_move_spec(
                            m.0 as int,
                            m.1 as int,
                            m.2 as int,
                            m.3 as int,
                        )
                    },
                forall|t1: int, t2: int|
                    0 <= t1 < t2 < valid_moves@.len() ==> #[trigger] move_key(valid_moves@[t1])
                        < #[trigger] move_key(valid_moves@[t2]),
                forall|t: int|
                    0 <= t < valid_moves@.len() ==> #[trigger] move_key(valid_moves@[t]) < (
                    if x == 0 {
                        0int
                    } else {
                        (pieces_index@[x - 1] + 1) * 64
                    }),
                forall|a: int, b: int, c: int, d: int|
                    #![trigger self.legal_move_spec(a, b, c, d)]
                    0 <= a < 8 && 0 <= b < 8 && 0 <= c < 8 && 0 <= d < 8
                        && self.legal_move_spec(a, b, c, d) && (exists|idx: int|
                        0 <= idx < x && pieces_index@[idx] == sq(a, b) as usize)
                        ==> valid_moves@.contains(
                        ((a as usize), (b as usize), (c as usize), (d as usize)),
                    ),
            decreases pieces_index@.len() - x,
        {
            let piece_square = pieces_index[x];
            let i = piece_square / 8;
            let j = piece_square % 8;
            proof {
                assert(sq(i as int, j as int) == piece_square as u64);
                assert(bit(self.player_board(self.side_to_move()), sq(i as int, j as int)));
                let n = sq(i as int, j as int);
                match self.side_to_move() {
                    ChessPlayer::White => {
                        if !bit(self.taken(), n) {
                            lemma_bit_and(self.white@, !self.taken(), n);
                            lemma_bit_not(self.taken(), n);
                            lemma_bit_zero(n);
                        }
                    },
                    ChessPlayer::Black => {
                        lemma_bit_and(self.taken(), !self.white@, n);
                        lemma_bit_not(self.white@, n);
                    },
                }
                assert(bit(self.taken(), n));
            }
            let piece_type_opt = self.get_piece_on_position(i, j);
            proof {
                lemma_taken_parts(*self, sq(i as int, j as int));
            }
            let piece_type = piece_type_opt.unwrap();
            proof {
                let n = sq(i as int, j as int);
                let pb = self.player_board(self.side_to_move());
                lemma_bit_and(pb, self.pawn@, n);
                lemma_bit_and(pb, self.knight@, n);
                lemma_bit_and(pb, self.queen@, n);
                lemma_bit_and(pb, self.king@, n);
            }
            let valid_moves_mask = match piece_type {
                ChessPiece::Pawn => self.get_valid_pawn_moves(i, j, player_on_move),
                ChessPiece::Rook => self.get_valid_rook_moves(tables, i, j, player_on_move),
                ChessPiece::Knight => self.get_valid_knight_moves(i, j, player_on_move),
                ChessPiece::Bishop => self.get_valid_bishop_moves(tables, i, j, player_on_move),
                ChessPiece::Queen => self.get_valid_queen_moves(tables, i, j, player_on_move),
                ChessPiece::King => self.get_valid_king_moves(tables, i, j, player_on_move),
            };
            proof {
                assert forall|c: int, d: int| on_board(c, d) implies #[trigger] bit(
                    valid_moves_mask@,
                    sq(c, d),
                ) == self.move_bit(
                    piece_type,
                    i as int,
                    j as int,
                    self.side_to_move(),
                    c,
                    d,
                ) by {}
            }
            let dest_ones = valid_moves_mask.get_ones();
            let mut y: usize = 0;
            while y < dest_ones.len()
                invariant
                    self.wf(),
                    tables.wf(),
                    player_on_move == self.side_to_move(),
                    opp_king@ == self.player_board(self.side_to_move().opponent()) & self.king@,
                    i < 8,
                    j < 8,
                    sq(i as int, j as int) == piece_square as u64,
                    piece_square < 64,
                    bit(self.player_board(self.side_to_move()), sq(i as int, j as int)),
                    bit(self.taken(), sq(i as int, j as int)),
                    self.piece_at_spec(i as int, j as int) == Some(piece_type),
                    y <= dest_ones@.len(),
                    forall|idx: int|
                        0 <= idx < dest_ones@.len() ==> #[trigger] dest_ones@[idx] < 64 && bit(
                            valid_moves_mask@,
                            dest_ones@[idx] as u64,
                        ),
                    forall|m: u64|
                        m < 64 && bit(valid_moves_mask@, m) ==> dest_ones@.contains(m as usize),
                    forall|y1: int, y2: int|
                        0 <= y1 < y2 < dest_ones@.len() ==> dest_ones@[y1] < dest_ones@[y2],
                    forall|c: int, d: int|
                        on_board(c, d) ==> #[trigger] bit(valid_moves_mask@, sq(c, d))
                            == self.move_bit(
                            piece_type,
                            i as int,
                            j as int,
                            self.side_to_move(),
                            c,
                            d,
                        ),
                    forall|idx: int|
                        0 <= idx < valid_moves@.len() ==> {
                            let m = #[trigger] valid_moves@[idx];
                            m.0 < 8 && m.1 < 8 && m.2 < 8 && m.3 < 8 && self.legal_move_spec(
                                m.0 as int,
                                m.1 as int,
                                m.2 as int,
                                m.3 as int,
                            )
                        },
                    forall|t1: int, t2: int|
                        0 <= t1 < t2 < valid_moves@.len() ==> #[trigger] move_key(
                            valid_moves@[t1],
                        ) < #[trigger] move_key(valid_moves@[t2]),
                    forall|t: int|
                        0 <= t < valid_moves@.len() ==> #[trigger] move_key(valid_moves@[t])
                            < piece_square * 64 + (if y == 0 {
                            0int
                        } else {
                            dest_ones@[y - 1] + 1
                        }),
                    forall|a: int, b: int, c: int, d: int|
                        #![trigger self.legal_move_spec(a, b, c, d)]
                        0 <= a < 8 && 0 <= b < 8 && 0 <= c < 8 && 0 <= d < 8
                            && self.legal_move_spec(a, b, c, d) && (exists|idx: int|
                            0 <= idx < x && pieces_index@[idx] == sq(a, b) as usize)
                            ==> valid_moves@.contains(
                            ((a as usize), (b as usize), (c as usize), (d as usize)),
                        ),
                    forall|c: int, d: int|
                        #![trigger sq(c, d)]
                        0 <= c < 8 && 0 <= d < 8 && self.legal_move_spec(
                            i as int,
                            j as int,
                            c,
                            d,
                        ) && (exists|ydx: int|
                            0 <= ydx < y && dest_ones@[ydx] == sq(c, d) as usize)
                            ==> valid_moves@.contains(
                            ((i as usize), (j as usize), (c as usize), (d as usize)),
                        ),
                decreases dest_ones@.len() - y,
            {
                let dest_square = dest_ones[y];
                let kk = dest_square / 8;
                let ll = dest_square % 8;
                proof {
                    assert(sq(kk as int, ll as int) == dest_square as u64);
                }
                let ghost vm0 = valid_moves@;
                if self.is_valid_move(tables, piece_type, i, j, kk, ll) {
                    if !opp_king.is_set(kk, ll) {
                        proof {
                            lemma_move_dst_not_src(
                                *self,
                                piece_type,
                                i as int,
                                j as int,
                                kk as int,
                                ll as int,
                            );
                            assert(self.pseudo_legal(i as int, j as int, kk as int, ll as int));
                        }
                        let mut copy = *self;
                        if copy.make_move(tables, i, j, kk, ll) {
                            valid_moves.push((i, j, kk, ll));
                            proof {
                                assert(self.legal_move_spec(
                                    i as int,
                                    j as int,
                                    kk as int,
                                    ll as int,
                                ));
                                assert(valid_moves@[valid_moves@.len() - 1] == (
                                (i as usize),
                                (j as usize),
                                (kk as usize),
                                (ll as usize),
                                ));
                                assert(move_key(valid_moves@[valid_moves@.len() - 1])
                                    == piece_square * 64 + dest_square);
                            }
                        } else {
                            proof {
                                assert(!self.legal_move_spec(
                                    i as int,
                                    j as int,
                                    kk as int,
                                    ll as int,
                                ));
                            }
                        }
                    } else {
                        proof {
                            assert(!self.legal_move_spec(i as int, j as int, kk as int, ll as int));
                        }
                    }
                } else {
                    proof {
                        assert(!self.move_bit(
                            piece_type,
                            i as int,
                            j as int,
                            self.side_to_move(),
                            kk as int,
                            ll as int,
                        ));
                        assert(!self.legal_move_spec(i as int, j as int, kk as int, ll as int));
                    }
                }
                proof {
                    assert forall|t: (usize, usize, usize, usize)| vm0.contains(t) implies
                        valid_moves@.contains(t) by {
                        let idx = choose|idx: int| 0 <= idx < vm0.len() && vm0[idx] == t;
                        assert(valid_moves@[idx] == t);
                    }
                }
                y = y + 1;
            }
            proof {
                assert forall|a: int, b: int, c: int, d: int|
                    #![trigger self.legal_move_spec(a, b, c, d)]
                    0 <= a < 8 && 0 <= b < 8 && 0 <= c < 8 && 0 <= d < 8 && self.legal_move_spec(
                        a,
                        b,
                        c,
                        d,
                    ) && (exists|idx: int|
                        0 <= idx < x + 1 && pieces_index@[idx] == sq(a, b) as usize) implies
                    valid_moves@.contains(
                        ((a as usize), (b as usize), (c as usize), (d as usize)),
                    ) by {
                    let idx = choose|idx: int|
                        0 <= idx < x + 1 && pieces_index@[idx] == sq(a, b) as usize;
                    if idx == x as int {
                        assert(a == i as int && b == j as int);
                        assert(self.move_bit(
                            piece_type,
                            i as int,
                            j as int,
                            self.side_to_move(),
                            c,
                            d,
                        ));
                        assert(bit(valid_moves_mask@, sq(c, d)));
                        assert(dest_ones@.contains(sq(c, d) as usize));
                        let ydx = choose|ydx: int|
                            0 <= ydx < dest_ones@.len() && dest_ones@[ydx] == sq(c, d) as usize;
                        assert(0 <= ydx < dest_ones@.len() && dest_ones@[ydx] == sq(
                            c,
                            d,
                        ) as usize);
                    }
                }
            }
            x = x + 1;
        }
        proof {
            assert forall|a: int, b: int, c: int, d: int|
                #![trigger self.legal_move_spec(a, b, c, d)]
                0 <= a < 8 && 0 <= b < 8 && 0 <= c < 8 && 0 <= d < 8 && self.legal_move_spec(
                    a,
                    b,
                    c,
                    d,
                ) implies valid_moves@.contains(
                ((a as usize), (b as usize), (c as usize), (d as usize)),
            ) by {
                assert(bit(self.player_board(self.side_to_move()), sq(a, b)));
                assert(pieces_index@.contains(sq(a, b) as usize));
                let idx = choose|idx: int|
                    0 <= idx < pieces_index@.len() && pieces_index@[idx] == sq(a, b) as usize;
                assert(0 <= idx < x && pieces_index@[idx] == sq(a, b) as usize);
            }
            assert forall|t1: int, t2: int|
                0 <= t1 < t2 < valid_moves@.len() implies valid_moves@[t1]
                != valid_moves@[t2] by {
                assert(move_key(valid_moves@[t1]) < move_key(valid_moves@[t2]));
            }
        }
        valid_moves
    }

    /// Whether `player` is checkmated: it is that side's turn, its king is
    /// attacked, and no legal move exists.
    pub fn is_in_check_mate(&self, tables: &AttackTables, player: ChessPlayer) -> (r: bool)
        requires
            self.wf(),
            tables.wf(),
        ensures
            r == (self.side_to_move() == player && self.in_check_spec(player)
                && !self.has_legal_move()),
    {
        if self.get_player_on_move() == player {
            if self.is_in_check(tables, player) {
                let moves = self.get_valid_moves(tables);
                let r = moves.len() == 0;
                proof {
                    if r {
                        if self.has_legal_move() {
                            let (a, b, c, d) = choose|a: int, b: int, c: int, d: int|
                                #![trigger self.legal_move_spec(a, b, c, d)]
                                0 <= a < 8 && 0 <= b < 8 && 0 <= c < 8 && 0 <= d < 8
                                    && self.legal_move_spec(a, b, c, d);
                            assert(moves@.contains(
                                ((a as usize), (b as usize), (c as usize), (d as usize)),
                            ));
                        }
                    } else {
                        let m = moves@[0];
                        assert(self.legal_move_spec(
                            m.0 as int,
                            m.1 as int,
                            m.2 as int,
                            m.3 as int,
                        ));
                    }
                }
                r
            } else {
                false
            }
        } else {
            false
        }
    }
}


/// Distinct piece kinds never share a square.
proof fn lemma_pair_zero(p: Position, q1: ChessPiece, q2: ChessPiece)
    requires
        p.disjoint_pieces(),
        q1 != q2,
    ensures
        p.piece_board(q1) & p.piece_board(q2) == 0,
{
    assert forall|n: u64| n < 64 implies !bit(p.piece_board(q1) & p.piece_board(q2), n) by {
        lemma_bit_and(p.piece_board(q1), p.piece_board(q2), n);
        if bit(p.piece_board(q1), n) && bit(p.piece_board(q2), n) {
            assert(p.boards_at(n) >= 2);
        }
    }
    lemma_no_bits_zero(p.piece_board(q1) & p.piece_board(q2));
}

/// In a well-formed position every White square is an occupied square.
pub proof fn lemma_white_in_taken(p: Position)
    requires
        p.wf(),
    ensures
        forall|n: u64| n < 64 && #[trigger] bit(p.white@, n) ==> bit(p.taken(), n),
{
    assert forall|n: u64| n < 64 && #[trigger] bit(p.white@, n) implies bit(p.taken(), n) by {
        if !bit(p.taken(), n) {
            lemma_bit_and(p.white@, !p.taken(), n);
            lemma_bit_not(p.taken(), n);
            lemma_bit_zero(n);
        }
    }
}

/// In a well-formed position the six piece boards are pairwise disjoint,
/// written out as the fifteen empty intersections.
pub proof fn lemma_piece_boards_disjoint(p: Position)
    requires
        p.wf(),
    ensures
        p.pawn@ & p.rook@ == 0,
        p.pawn@ & p.knight@ == 0,
        p.pawn@ & p.bishop@ == 0,
        p.pawn@ & p.queen@ == 0,
        p.pawn@ & p.king@ == 0,
        p.rook@ & p.knight@ == 0,
        p.rook@ & p.bishop@ == 0,
        p.rook@ & p.queen@ == 0,
        p.rook@ & p.king@ == 0,
        p.knight@ & p.bishop@ == 0,
        p.knight@ & p.queen@ == 0,
        p.knight@ & p.king@ == 0,
        p.bishop@ & p.queen@ == 0,
        p.bishop@ & p.king@ == 0,
        p.queen@ & p.king@ == 0,
{
    lemma_pair_zero(p, ChessPiece::Pawn, ChessPiece::Rook);
    lemma_pair_zero(p, ChessPiece::Pawn, ChessPiece::Knight);
    lemma_pair_zero(p, ChessPiece::Pawn, ChessPiece::Bishop);
    lemma_pair_zero(p, ChessPiece::Pawn, ChessPiece::Queen);
    lemma_pair_zero(p, ChessPiece::Pawn, ChessPiece::King);
    lemma_pair_zero(p, ChessPiece::Rook, ChessPiece::Knight);
    lemma_pair_zero(p, ChessPiece::Rook, ChessPiece::Bishop);
    lemma_pair_zero(p, ChessPiece::Rook, ChessPiece::Queen);
    lemma_pair_zero(p, ChessPiece::Rook, ChessPiece::King);
    lemma_pair_zero(p, ChessPiece::Knight, ChessPiece::Bishop);
    lemma_pair_zero(p, ChessPiece::Knight, ChessPiece::Queen);
    lemma_pair_zero(p, ChessPiece::Knight, ChessPiece::King);
    lemma_pair_zero(p, ChessPiece::Bishop, ChessPiece::Queen);
    lemma_pair_zero(p, ChessPiece::Bishop, ChessPiece::King);
    lemma_pair_zero(p, ChessPiece::Queen, ChessPiece::King);
}

/// A well-formed position holds exactly one king of each color.
pub proof fn lemma_one_king_per_color(p: Position)
    requires
        p.wf(),
    ensures
        popcount(p.white@ & p.king@) == 1,
        popcount(p.black() & p.king@) == 1,
{
    let wn = choose|n: u64| n < 64 && (p.white@ & p.king@) == (1u64 << n);
    crate::bitboard::lemma_popcount_single(wn);
    let bn = choose|n: u64| n < 64 && (p.black() & p.king@) == (1u64 << n);
    crate::bitboard::lemma_popcount_single(bn);
}

/// The White and Black piece counts add up to the count of occupied squares.
pub proof fn lemma_color_counts(p: Position)
    requires
        p.wf(),
    ensures
        popcount(p.white@) + popcount(p.black()) == popcount(p.taken()),
{
    assert(p.white@ & p.black() == 0) by {
        assert forall|n: u64| n < 64 implies !bit(p.white@ & p.black(), n) by {
            lemma_bit_and(p.white@, p.black(), n);
            lemma_bit_and(p.taken(), !p.white@, n);
            lemma_bit_not(p.white@, n);
        }
        lemma_no_bits_zero(p.white@ & p.black());
    }
    assert(p.white@ | p.black() == p.taken()) by {
        assert forall|n: u64| n < 64 implies bit(p.white@ | p.black(), n) == bit(
            p.taken(),
            n,
        ) by {
            lemma_bit_or(p.white@, p.black(), n);
            lemma_bit_and(p.taken(), !p.white@, n);
            lemma_bit_not(p.white@, n);
            if bit(p.white@, n) && !bit(p.taken(), n) {
                lemma_bit_and(p.white@, !p.taken(), n);
                lemma_bit_not(p.taken(), n);
                lemma_bit_zero(n);
            }
        }
        lemma_bit_ext(p.white@ | p.black(), p.taken());
    }
    lemma_popcount_disjoint(p.white@, p.black());
}

/// Applying a fully legal move yields a well-formed position in which the
/// mover is not in check.
pub proof fn lemma_legal_move_sound(p: Position, i: int, j: int, k: int, l: int)
    requires
        p.wf(),
        p.legal_move_spec(i, j, k, l),
    ensures
        p.apply_move_spec(i, j, k, l).wf(),
        !p.apply_move_spec(i, j, k, l).in_check_spec(p.side_to_move()),
{
    lemma_apply_move_wf(p, i, j, k, l);
}

/// A pawn arriving on its last rank is replaced with a queen: the pawn board
/// loses both squares of the move and the queen board gains the destination.
pub proof fn lemma_promotion(p: Position, i: int, j: int, k: int, l: int)
    requires
        p.wf(),
        p.pseudo_legal(i, j, k, l),
        !bit(p.player_board(p.side_to_move().opponent()) & p.king@, sq(k, l)),
        p.promotes(i, j, k),
    ensures
        !bit(p.apply_move_spec(i, j, k, l).pawn@, sq(k, l)),
        !bit(p.apply_move_spec(i, j, k, l).pawn@, sq(i, j)),
        bit(p.apply_move_spec(i, j, k, l).queen@, sq(k, l)),
{
    lemma_apply_move_boards(p, i, j, k, l);
    assert(sq(i, j) != sq(k, l));
}

/// A king has no legal move onto a square the opponent attacks in the
/// resulting position.
pub proof fn lemma_king_avoids_attacked(p: Position, i: int, j: int, k: int, l: int)
    requires
        p.wf(),
        p.legal_move_spec(i, j, k, l),
        p.piece_at_spec(i, j) == Some(ChessPiece::King),
    ensures
        !p.apply_move_spec(i, j, k, l).attacked_bit(p.side_to_move().opponent(), k, l),
{
    let moved = p.apply_move_spec(i, j, k, l);
    let stm = p.side_to_move();
    let dst = sq(k, l);
    lemma_apply_move_kings(p, i, j, k, l);
    if moved.attacked_bit(stm.opponent(), k, l) {
        assert(bit(moved.player_board(stm) & moved.king@, dst)) by {
            match stm {
                ChessPlayer::White => {
                    assert(moved.white@ & moved.king@ == (1u64 << dst));
                    lemma_bit_single(dst, dst);
                },
                ChessPlayer::Black => {
                    assert(moved.black() & moved.king@ == (1u64 << dst));
                    lemma_bit_single(dst, dst);
                },
            }
        }
        assert(on_board(k, l));
        assert(moved.in_check_spec(stm));
    }
}


/// The display glyph of a piece of the given color.
pub open spec fn glyph_seq(piece: ChessPiece, white_piece: bool) -> Seq<char> {
    if white_piece {
        match piece {
            ChessPiece::Pawn => "\u{2659}"@,
            ChessPiece::Rook => "\u{2656}"@,
            ChessPiece::Knight => "\u{2658}"@,
            ChessPiece::Bishop => "\u{2657}"@,
            ChessPiece::Queen => "\u{2655}"@,
            ChessPiece::King => "\u{2654}"@,
        }
    } else {
        match piece {
            ChessPiece::Pawn => "\u{265F}"@,
            ChessPiece::Rook => "\u{265C}"@,
            ChessPiece::Knight => "\u{265E}"@,
            ChessPiece::Bishop => "\u{265D}"@,
            ChessPiece::Queen => "\u{265B}"@,
            ChessPiece::King => "\u{265A}"@,
        }
    }
}

/// The label that opens the rank line of row `i`.
pub open spec fn row_label(i: int) -> Seq<char> {
    if i == 0 {
        "0 "@
    } else if i == 1 {
        "1 "@
    } else if i == 2 {
        "2 "@
    } else if i == 3 {
        "3 "@
    } else if i == 4 {
        "4 "@
    } else if i == 5 {
        "5 "@
    } else if i == 6 {
        "6 "@
    } else {
        "7 "@
    }
}

/// The display glyph of a piece of the given color.
fn piece_glyph(piece: ChessPiece, white_piece: bool) -> (r: &'static str)
    ensures
        r@ == glyph_seq(piece, white_piece),
{
    if white_piece {
        match piece {
            ChessPiece::Pawn => "\u{2659}",
            ChessPiece::Rook => "\u{2656}",
            ChessPiece::Knight => "\u{2658}",
            ChessPiece::Bishop => "\u{2657}",
            ChessPiece::Queen => "\u{2655}",
            ChessPiece::King => "\u{2654}",
        }
    } else {
        match piece {
            ChessPiece::Pawn => "\u{265F}",
            ChessPiece::Rook => "\u{265C}",
            ChessPiece::Knight => "\u{265E}",
            ChessPiece::Bishop => "\u{265D}",
            ChessPiece::Queen => "\u{265B}",
            ChessPiece::King => "\u{265A}",
        }
    }
}

/// A prefix of a sequence survives appending to it.
proof fn lemma_append_keeps_prefix(a: Seq<char>, b: Seq<char>, n: int)
    requires
        0 <= n <= a.len(),
    ensures
        (a + b).subrange(0, n) == a.subrange(0, n),
{
    assert((a + b).subrange(0, n) =~= a.subrange(0, n));
}

/// Append a piece of text, keeping every existing prefix intact.
fn append_text(out: &mut String, piece: &str)
    ensures
        final(out)@ == old(out)@ + piece@,
        final(out)@.len() >= old(out)@.len(),
        forall|n: int|
            0 <= n <= old(out)@.len() ==> #[trigger] final(out)@.subrange(0, n) == old(
                out,
            )@.subrange(0, n),
{
    out.push_str(piece);
    proof {
        assert forall|n: int| 0 <= n <= old(out)@.len() implies #[trigger] out@.subrange(0, n)
            == old(out)@.subrange(0, n) by {
            lemma_append_keeps_prefix(old(out)@, piece@, n);
        }
    }
}

impl Position {
    /// The opening line of the text rendering, naming the side to move.
    pub open spec fn banner_text(self) -> Seq<char> {
        match self.side_to_move() {
            ChessPlayer::White => "White on move.\n"@,
            ChessPlayer::Black => "Black on move.\n"@,
        }
    }

    /// The notice for White: check-mate, check, or nothing.
    pub open spec fn white_banner(self) -> Seq<char> {
        if self.side_to_move() == ChessPlayer::White && self.in_check_spec(ChessPlayer::White)
            && !self.has_legal_move() {
            "White is in check-mate.\n"@
        } else if self.in_check_spec(ChessPlayer::White) {
            "White is in check.\n"@
        } else {
            Seq::empty()
        }
    }

    /// The notice for Black: check-mate, check, or nothing.
    pub open spec fn black_banner(self) -> Seq<char> {
        if self.side_to_move() == ChessPlayer::Black && self.in_check_spec(ChessPlayer::Black)
            && !self.has_legal_move() {
            "Black is in check-mate.\n"@
        } else if self.in_check_spec(ChessPlayer::Black) {
            "Black is in check.\n"@
        } else {
            Seq::empty()
        }
    }

    /// One rendered square: brackets around the occupant's glyph, with a
    /// tick marking the dark squares.
    pub open spec fn square_text(self, i: int, j: int) -> Seq<char> {
        let dark = (j + i % 2) % 2 != 0;
        if bit(self.free(), sq(i, j)) {
            if dark {
                "[ ']"@
            } else {
                "[  ]"@
            }
        } else {
            let glyph = match self.piece_at_spec(i, j) {
                Some(pc) => glyph_seq(pc, bit(self.white@, sq(i, j))),
                None => Seq::empty(),
            };
            "["@ + glyph + (if dark {
                "']"@
            } else {
                " ]"@
            })
        }
    }

    /// The first `j` rendered squares of rank `i`.
    pub open spec fn squares_text(self, i: int, j: int) -> Seq<char>
        decreases j,
    {
        if j <= 0 {
            Seq::empty()
        } else {
            self.squares_text(i, j - 1) + self.square_text(i, j - 1)
        }
    }

    /// One full rank line: the row label, the eight squares, a newline.
    pub open spec fn row_text(self, i: int) -> Seq<char> {
        row_label(i) + self.squares_text(i, 8) + "\n"@
    }

    /// The rank lines of rows 7 down to `row`.
    pub open spec fn grid_from(self, row: int) -> Seq<char>
        decreases 8 - row,
    {
        if row < 0 || row >= 8 {
            Seq::empty()
        } else {
            self.grid_from(row + 1) + self.row_text(row)
        }
    }

    /// The full text rendering: the side-to-move banner, the check and
    /// check-mate notices, the eight rank lines from Black's side downward,
    /// and the file legend.
    pub open spec fn board_text_spec(self) -> Seq<char> {
        self.banner_text() + self.white_banner() + self.black_banner() + self.grid_from(0)
            + "   0   1   2   3   4   5   6   7\n"@
    }

    /// The text rendering of the position, character for character the
    /// rendering specification.
    pub fn board_text(&self, tables: &AttackTables) -> (r: String)
        requires
            self.wf(),
            tables.wf(),
        ensures
            r@ == self.board_text_spec(),
    {
        let mut out = String::new();
        match self.get_player_on_move() {
            ChessPlayer::White => append_text(&mut out, "White on move.\n"),
            ChessPlayer::Black => append_text(&mut out, "Black on move.\n"),
        }
        proof {
            assert(out@ =~= self.banner_text());
        }
        if self.is_in_check_mate(tables, ChessPlayer::White) {
            append_text(&mut out, "White is in check-mate.\n");
        } else if self.is_in_check(tables, ChessPlayer::White) {
            append_text(&mut out, "White is in check.\n");
        } else {
            proof {
                assert(out@ =~= out@ + self.white_banner());
            }
        }
        let ghost head1 = self.banner_text() + self.white_banner();
        proof {
            assert(out@ =~= head1);
        }
        if self.is_in_check_mate(tables, ChessPlayer::Black) {
            append_text(&mut out, "Black is in check-mate.\n");
        } else if self.is_in_check(tables, ChessPlayer::Black) {
            append_text(&mut out, "Black is in check.\n");
        } else {
            proof {
                assert(out@ =~= out@ + self.black_banner());
            }
        }
        let ghost head = head1 + self.black_banner();
        proof {
            assert(out@ =~= head);
            assert(out@ =~= head + self.grid_from(8));
        }
        let free = self.get_free_bitboard();
        let mut row: usize = 8;
        while row > 0
            invariant
                self.wf(),
                row <= 8,
                free@ == self.free(),
                head == self.banner_text() + self.white_banner() + self.black_banner(),
                out@ == head + self.grid_from(row as int),
            decreases row,
        {
            let i = row - 1;
            append_text(
                &mut out,
                match i {
                    0 => "0 ",
                    1 => "1 ",
                    2 => "2 ",
                    3 => "3 ",
                    4 => "4 ",
                    5 => "5 ",
                    6 => "6 ",
                    _ => "7 ",
                },
            );
            proof {
                assert(out@ =~= head + self.grid_from(i + 1) + row_label(i as int)
                    + self.squares_text(i as int, 0));
            }
            let mut j: usize = 0;
            while j < 8
                invariant
                    self.wf(),
                    i < 8,
                    j <= 8,
                    free@ == self.free(),
                    out@ == head + self.grid_from(i + 1) + row_label(i as int)
                        + self.squares_text(i as int, j as int),
                decreases 8 - j,
            {
                let dark = (j + i % 2) % 2 != 0;
                if free.is_set(i, j) {
                    append_text(
                        &mut out,
                        if dark {
                            "[ ']"
                        } else {
                            "[  ]"
                        },
                    );
                } else {
                    proof {
                        lemma_bit_not(self.taken(), sq(i as int, j as int));
                        lemma_taken_parts(*self, sq(i as int, j as int));
                    }
                    let piece = self.get_piece_on_position(i, j).unwrap();
                    let glyph = piece_glyph(piece, self.white.is_set(i, j));
                    append_text(&mut out, "[");
                    append_text(&mut out, glyph);
                    append_text(
                        &mut out,
                        if dark {
                            "']"
                        } else {
                            " ]"
                        },
                    );
                }
                proof {
                    assert(out@ =~= head + self.grid_from(i + 1) + row_label(i as int)
                        + self.squares_text(i as int, j + 1));
                }
                j = j + 1;
            }
            append_text(&mut out, "\n");
            proof {
                assert(out@ =~= head + self.grid_from(i as int));
            }
            row = row - 1;
        }
        append_text(&mut out, "   0   1   2   3   4   5   6   7\n");
        proof {
            assert(out@ =~= self.board_text_spec());
        }
        out
    }
}


/// The board mutation leaves the stored side-to-move word untouched; only
/// the explicit flip changes it.
proof fn lemma_apply_keeps_other(p: Position, i: int, j: int, k: int, l: int)
    ensures
        p.apply_move_spec(i, j, k, l).other == p.other,
{
}

impl Position {
    /// The position after playing the listed moves in order, each applied
    /// with the board mutation and side-to-move flip of a successful
    /// `make_move`.
    pub open spec fn played(self, moves: Seq<(int, int, int, int)>) -> Position
        decreases moves.len(),
    {
        if moves.len() == 0 {
            self
        } else {
            let m = moves[0];
            self.apply_move_spec(m.0, m.1, m.2, m.3).flipped().played(moves.drop_first())
        }
    }
}

/// Over any run of successfully applied moves the side to move alternates:
/// it is the starting side exactly when the number of moves played is even.
pub proof fn lemma_side_to_move_parity(p: Position, moves: Seq<(int, int, int, int)>)
    ensures
        p.played(moves).side_to_move() == (if moves.len() % 2 == 0 {
            p.side_to_move()
        } else {
            p.side_to_move().opponent()
        }),
    decreases moves.len(),
{
    if moves.len() > 0 {
        let m = moves[0];
        let q = p.apply_move_spec(m.0, m.1, m.2, m.3).flipped();
        lemma_apply_keeps_other(p, m.0, m.1, m.2, m.3);
        let o = p.other;
        assert(((o ^ 1) & 1 == 0) == (o & 1 != 0)) by (bit_vector);
        assert(q.side_to_move() == p.side_to_move().opponent());
        lemma_side_to_move_parity(q, moves.drop_first());
    }
}

impl Default for Position {
    /// The standard starting layout, White to move.
    fn default() -> (r: Self)
        ensures
            r.white@ == 0xFFFFu64,
            r.pawn@ == 0x00FF_0000_0000_FF00u64,
            r.rook@ == 0x8100_0000_0000_0081u64,
            r.knight@ == 0x4200_0000_0000_0042u64,
            r.bishop@ == 0x2400_0000_0000_0024u64,
            r.queen@ == 0x0800_0000_0000_0008u64,
            r.king@ == 0x1000_0000_0000_0010u64,
            r.other == 0,
            r.wf(),
            r.side_to_move() == ChessPlayer::White,
    {
        let r = Position {
            white: Bitboard::new(0xFFFF),
            pawn: Bitboard::new(0x00FF_0000_0000_FF00),
            rook: Bitboard::new(0x8100_0000_0000_0081),
            knight: Bitboard::new(0x4200_0000_0000_0042),
            bishop: Bitboard::new(0x2400_0000_0000_0024),
            queen: Bitboard::new(0x0800_0000_0000_0008),
            king: Bitboard::new(0x1000_0000_0000_0010),
            other: 0,
        };
        proof {
            lemma_default_position_wf(r);
            assert(0u64 & 1 == 0) by (bit_vector);
        }
        r
    }
}

/// The starting layout satisfies the position invariant.
proof fn lemma_default_position_wf(r: Position)
    requires
        r.white@ == 0xFFFFu64,
        r.pawn@ == 0x00FF_0000_0000_FF00u64,
        r.rook@ == 0x8100_0000_0000_0081u64,
        r.knight@ == 0x4200_0000_0000_0042u64,
        r.bishop@ == 0x2400_0000_0000_0024u64,
        r.queen@ == 0x0800_0000_0000_0008u64,
        r.king@ == 0x1000_0000_0000_0010u64,
        r.other == 0,
    ensures
        r.wf(),
{
    broadcast use group_bit_lemmas;

    let pw = 0x00FF_0000_0000_FF00u64;
    let rk = 0x8100_0000_0000_0081u64;
    let kn = 0x4200_0000_0000_0042u64;
    let bi = 0x2400_0000_0000_0024u64;
    let qu = 0x0800_0000_0000_0008u64;
    let ki = 0x1000_0000_0000_0010u64;
    assert(0x00FF_0000_0000_FF00u64 & 0x8100_0000_0000_0081u64 == 0 && 0x00FF_0000_0000_FF00u64
        & 0x4200_0000_0000_0042u64 == 0 && 0x00FF_0000_0000_FF00u64 & 0x2400_0000_0000_0024u64
        == 0 && 0x00FF_0000_0000_FF00u64 & 0x0800_0000_0000_0008u64 == 0
        && 0x00FF_0000_0000_FF00u64 & 0x1000_0000_0000_0010u64 == 0 && 0x8100_0000_0000_0081u64
        & 0x4200_0000_0000_0042u64 == 0 && 0x8100_0000_0000_0081u64 & 0x2400_0000_0000_0024u64
        == 0 && 0x8100_0000_0000_0081u64 & 0x0800_0000_0000_0008u64 == 0
        && 0x8100_0000_0000_0081u64 & 0x1000_0000_0000_0010u64 == 0 && 0x4200_0000_0000_0042u64
        & 0x2400_0000_0000_0024u64 == 0 && 0x4200_0000_0000_0042u64 & 0x0800_0000_0000_0008u64
        == 0 && 0x4200_0000_0000_0042u64 & 0x1000_0000_0000_0010u64 == 0
        && 0x2400_0000_0000_0024u64 & 0x0800_0000_0000_0008u64 == 0 && 0x2400_0000_0000_0024u64
        & 0x1000_0000_0000_0010u64 == 0 && 0x0800_0000_0000_0008u64 & 0x1000_0000_0000_0010u64
        == 0) by (bit_vector);
    assert(0xFFFFu64 & !(0x00FF_0000_0000_FF00u64 | 0x8100_0000_0000_0081u64
        | 0x4200_0000_0000_0042u64 | 0x2400_0000_0000_0024u64 | 0x0800_0000_0000_0008u64
        | 0x1000_0000_0000_0010u64) == 0) by (bit_vector);
    assert(0xFFFFu64 & 0x1000_0000_0000_0010u64 == (1u64 << 4)) by (bit_vector);
    assert(((0x00FF_0000_0000_FF00u64 | 0x8100_0000_0000_0081u64 | 0x4200_0000_0000_0042u64
        | 0x2400_0000_0000_0024u64 | 0x0800_0000_0000_0008u64 | 0x1000_0000_0000_0010u64)
        & !0xFFFFu64) & 0x1000_0000_0000_0010u64 == (1u64 << 60)) by (bit_vector);
    assert(0x00FF_0000_0000_FF00u64 & 0xFF00_0000_0000_00FFu64 == 0) by (bit_vector);
    assert(single_bit(r.white@ & r.king@)) by {
        assert(r.white@ & r.king@ == (1u64 << 4));
    }
    assert(single_bit(r.black() & r.king@)) by {
        assert(r.black() & r.king@ == (1u64 << 60));
    }
    assert forall|n: u64| n < 64 implies #[trigger] r.boards_at(n) <= 1 by {
        lemma_bit_and(pw, rk, n);
        lemma_bit_and(pw, kn, n);
        lemma_bit_and(pw, bi, n);
        lemma_bit_and(pw, qu, n);
        lemma_bit_and(pw, ki, n);
        lemma_bit_and(rk, kn, n);
        lemma_bit_and(rk, bi, n);
        lemma_bit_and(rk, qu, n);
        lemma_bit_and(rk, ki, n);
        lemma_bit_and(kn, bi, n);
        lemma_bit_and(kn, qu, n);
        lemma_bit_and(kn, ki, n);
        lemma_bit_and(bi, qu, n);
        lemma_bit_and(bi, ki, n);
        lemma_bit_and(qu, ki, n);
        lemma_bit_zero(n);
    }
}

} // verus!
