//! The bitboard: a 7x6 Connect-Four position packed into two 64-bit words.
//!
//! Encoding: column-first order, one byte per column.  Bit `8*c + r` is the
//! square in column `c` at row `r`, with row 0 at the bottom.  The two high
//! bits of each column byte and the whole eighth byte are padding and stay
//! clear.  `player` holds the stones of the side to move, `occupied` every
//! stone on the board; the opponent's stones are `occupied & !player`.

use crate::bits::lemma_bit_ops;
use crate::bits::lemma_bit_shift;
use crate::bits::lemma_bit_zero;
use crate::bits::lemma_bit_ext;
use crate::bits::lemma_nonzero_has_bit;
use crate::bits::lemma_popcnt_disjoint;
use crate::bits::lemma_popcnt_single;
use crate::bits::lemma_popcnt_split;
use crate::bits::lemma_popcnt_subset;
use crate::bits::nth;
use crate::bits::popcnt;
use crate::bits::popcount;
use vstd::prelude::*;
use vstd::std_specs::iter::IteratorSpec;

verus! {

broadcast use vstd::string::next_postcondition;

pub const BOARD_WIDTH: usize = 7;

pub const BOARD_HEIGHT: usize = 6;

/// A Connect-Four position: the side to move's stones and all stones.
#[derive(Eq, PartialEq, Debug, Copy, Clone)]
pub struct BitBoard {
    pub player: u64,
    pub occupied: u64,
}

/// The state of one square.
#[derive(Copy, Clone, Eq, PartialEq, Debug)]
pub enum FieldType {
    Opponent,
    Player,
}

impl FieldType {
    /// The other side.
    pub fn opposite(&self) -> (r: FieldType)
        ensures
            r == (match self {
                FieldType::Opponent => FieldType::Player,
                FieldType::Player => FieldType::Opponent,
            }),
    {
        match self {
            FieldType::Opponent => FieldType::Player,
            FieldType::Player => FieldType::Opponent,
        }
    }
}

impl BitBoard {
    /// The eight bits of column 0.
    pub const FIRST_COLUMN: u64 = 0xFF;

    /// Bit 0 of every column byte.
    pub const BOTTOM_LINE: u64 = 0x0101_0101_0101_0101;

    /// The top (padding) bit of every column byte.
    pub const TOP_LINE: u64 = 0x8080_8080_8080_8080;

    /// The 42 playable squares: rows 0..5 of columns 0..6.
    pub const PLAYABLE_FIELDS: u64 = 0x003F_3F3F_3F3F_3F3F;
}

/// True for coordinates of a square on the board.
pub open spec fn in_board(c: int, r: int) -> bool {
    0 <= c < 7 && 0 <= r < 6
}

/// True iff the square in column `c`, row `r` is set in the word `b`.
pub open spec fn cell(b: u64, c: int, r: int) -> bool
    recommends
        0 <= c < 8,
        0 <= r < 8,
{
    nth(b, (8 * c + r) as u64)
}

/// Which bits the playable mask holds.
pub proof fn lemma_const_bits(i: u64)
    by (bit_vector)
    requires
        i < 64,
    ensures
        nth(0x003F_3F3F_3F3F_3F3Fu64, i) == (i < 56 && i % 8 < 6),
        nth(0x8080_8080_8080_8080u64, i) == (i % 8 == 7),
        nth(0x0101_0101_0101_0101u64, i) == (i % 8 == 0),
        nth(0xFFu64, i) == (i < 8),
{
}

/// Subtracting a sub-word is the same as clearing its bits.
pub proof fn lemma_sub_subset(x: u64, y: u64)
    by (bit_vector)
    requires
        x & y == x,
    ensures
        x <= y,
        y - x == y & !x,
        y - x == y ^ x,
{
}

impl BitBoard {
    /// The opponent's stones.
    pub open spec fn opp_spec(self) -> u64 {
        self.occupied & !self.player
    }

    /// The stones of the side to move are occupied, and nothing sits on the
    /// padding bits.
    pub open spec fn bits_ok(self) -> bool {
        &&& self.player & self.occupied == self.player
        &&& self.occupied & BitBoard::PLAYABLE_FIELDS == self.occupied
    }

    /// Within each column the occupied squares form a prefix from row 0.
    pub open spec fn gravity_ok(self) -> bool {
        ((self.occupied >> 1) & BitBoard::PLAYABLE_FIELDS) & !self.occupied == 0
    }

    /// The side to move has as many stones as the opponent, or one fewer.
    pub open spec fn balanced(self) -> bool {
        ||| popcnt(self.opp_spec()) == popcnt(self.player)
        ||| popcnt(self.opp_spec()) == popcnt(self.player) + 1
    }

    /// A well-formed position.
    pub open spec fn wf(self) -> bool {
        self.bits_ok() && self.gravity_ok() && self.balanced()
    }

    /// The position after dropping a stone on square `m` and handing the turn
    /// to the other side.
    pub open spec fn play_spec(self, m: u64) -> BitBoard {
        BitBoard { player: self.occupied ^ self.player, occupied: self.occupied | m }
    }
}

impl BitBoard {
    /// The stones of the side to move.
    pub fn get_player_bit_repr(&self) -> (r: u64)
        ensures
            r == self.player,
    {
        self.player
    }

    /// The opponent's stones.
    pub fn get_opponent_bit_repr(&self) -> (r: u64)
        requires
            self.player & self.occupied == self.player,
        ensures
            r == self.opp_spec(),
    {
        proof {
            lemma_sub_subset(self.player, self.occupied);
        }
        self.occupied - self.player
    }

    /// How many stones are on the board.
    #[inline]
    pub fn number_of_stones(&self) -> (r: u32)
        ensures
            r == popcnt(self.occupied),
            r <= 64,
    {
        popcount(self.occupied)
    }

    /// The empty board.
    pub fn empty() -> (r: BitBoard)
        ensures
            r.player == 0,
            r.occupied == 0,
            r.wf(),
    {
        proof {
            assert(0u64 & 0u64 == 0 && 0u64 & 0x003F_3F3F_3F3F_3F3Fu64 == 0 && ((0u64 >> 1)
                & 0x003F_3F3F_3F3F_3F3Fu64) & !0u64 == 0 && 0u64 & !0u64 == 0) by (bit_vector);
        }
        BitBoard { player: 0, occupied: 0 }
    }

    /// Hands the turn to the other side: the mover's stones become the
    /// opponent's.
    pub fn switch_players(&mut self)
        requires
            old(self).player & old(self).occupied == old(self).player,
        ensures
            final(self).player == old(self).opp_spec(),
            final(self).occupied == old(self).occupied,
    {
        proof {
            lemma_sub_subset(self.player, self.occupied);
        }
        let occupied = self.occupied;
        let player = self.player;
        self.player = occupied - player;
    }

    /// Drops a stone on square `field` and hands the turn to the other side.
    pub fn play_field(&self, field: u64) -> (r: BitBoard)
        requires
            self.player & self.occupied == self.player,
        ensures
            r == self.play_spec(field),
            r.player == self.opp_spec(),
            r.occupied == self.occupied | field,
    {
        proof {
            lemma_sub_subset(self.player, self.occupied);
        }
        BitBoard { player: self.occupied - self.player, occupied: self.occupied | field }
    }
}

/// A single bit at `i` holds no other index `j`.
pub proof fn lemma_single_bit(i: u64, j: u64)
    by (bit_vector)
    requires
        i < 64,
        j < 64,
    ensures
        nth(1u64 << i, j) == (i == j),
{
}

impl BitBoard {
    /// The word of legal landing squares, one bit per non-full column.
    pub open spec fn legal_spec(self) -> u64 {
        let filled = self.occupied | BitBoard::TOP_LINE;
        (filled ^ ((filled << 1) | BitBoard::BOTTOM_LINE)) & BitBoard::PLAYABLE_FIELDS
    }

    /// The square a stone dropped in column `c` lands on: the lowest empty
    /// row of the column.
    pub open spec fn landing(self, c: int, r: int) -> bool {
        &&& in_board(c, r)
        &&& !cell(self.occupied, c, r)
        &&& r == 0 || cell(self.occupied, c, r - 1)
    }

    /// The legal move in column `col`, or zero if the column is full.
    pub open spec fn col_move_spec(self, col: int) -> u64
        recommends
            0 <= col < 8,
    {
        self.legal_spec() & (BitBoard::FIRST_COLUMN << ((8 * col) as u64))
    }

    /// An occupied square rests on an occupied square.
    pub proof fn lemma_gravity_step(self, c: int, r: int)
        requires
            self.bits_ok(),
            self.gravity_ok(),
            in_board(c, r),
            1 <= r,
            cell(self.occupied, c, r),
        ensures
            cell(self.occupied, c, r - 1),
    {
        let i = (8 * c + r - 1) as u64;
        lemma_bit_zero(((self.occupied >> 1) & BitBoard::PLAYABLE_FIELDS) & !self.occupied, i);
        lemma_bit_ops((self.occupied >> 1) & BitBoard::PLAYABLE_FIELDS, !self.occupied, i);
        lemma_bit_ops(self.occupied >> 1, BitBoard::PLAYABLE_FIELDS, i);
        lemma_bit_ops(self.occupied, self.occupied, i);
        lemma_bit_shift(self.occupied, 1, i);
        lemma_const_bits(i);
    }

    /// Everything below an occupied square is occupied.
    pub proof fn lemma_gravity_down(self, c: int, r1: int, r2: int)
        requires
            self.bits_ok(),
            self.gravity_ok(),
            in_board(c, r2),
            0 <= r1 <= r2,
            cell(self.occupied, c, r2),
        ensures
            cell(self.occupied, c, r1),
        decreases r2 - r1,
    {
        if r1 < r2 {
            self.lemma_gravity_step(c, r2);
            self.lemma_gravity_down(c, r1, r2 - 1);
        }
    }

    /// The legal-move word holds exactly the landing squares.
    pub proof fn lemma_legal_cells(self)
        requires
            self.bits_ok(),
            self.gravity_ok(),
        ensures
            self.legal_spec() & BitBoard::PLAYABLE_FIELDS == self.legal_spec(),
            forall|i: u64| i < 64 && #[trigger] nth(self.legal_spec(), i) ==> i < 56 && i % 8 < 6,
            forall|c: int, r: int|
                in_board(c, r) ==> #[trigger] cell(self.legal_spec(), c, r) == self.landing(c, r),
    {
        let occ = self.occupied;
        let filled = occ | BitBoard::TOP_LINE;
        let shifted = (filled << 1) | BitBoard::BOTTOM_LINE;
        let legal = self.legal_spec();
        assert forall|i: u64| i < 64 implies nth(legal, i) == (i < 56 && i % 8 < 6 && (nth(occ, i)
            != (i % 8 == 0 || (i >= 1 && nth(filled, (i - 1) as u64))))) by {
            lemma_const_bits(i);
            lemma_bit_ops(filled ^ shifted, BitBoard::PLAYABLE_FIELDS, i);
            lemma_bit_ops(filled, shifted, i);
            lemma_bit_ops(filled << 1, BitBoard::BOTTOM_LINE, i);
            lemma_bit_shift(filled, 1, i);
            lemma_bit_ops(occ, BitBoard::TOP_LINE, i);
        }
        assert forall|i: u64| i < 64 && #[trigger] nth(legal, i) implies i < 56 && i % 8 < 6 by {}
        assert forall|i: u64| i < 64 implies nth(legal & BitBoard::PLAYABLE_FIELDS, i) == nth(
            legal,
            i,
        ) by {
            lemma_bit_ops(legal, BitBoard::PLAYABLE_FIELDS, i);
            lemma_const_bits(i);
        }
        lemma_bit_ext(legal & BitBoard::PLAYABLE_FIELDS, legal);
        assert forall|c: int, r: int| in_board(c, r) implies #[trigger] cell(legal, c, r)
            == self.landing(c, r) by {
            let i = (8 * c + r) as u64;
            assert(i < 56 && i % 8 == r && i / 8 == c);
            lemma_bit_ops(occ, BitBoard::TOP_LINE, i);
            if r == 0 {
                assert(cell(legal, c, r) == !nth(occ, i));
            } else {
                let j = (8 * c + r - 1) as u64;
                assert(j == i - 1 && j % 8 == r - 1);
                lemma_const_bits(j);
                lemma_bit_ops(occ, BitBoard::TOP_LINE, j);
                if cell(occ, c, r) {
                    self.lemma_gravity_step(c, r);
                }
            }
        }
    }

    /// What the move of one column is: a single unoccupied legal bit, or zero
    /// exactly when the column is full (or no column at all).
    pub proof fn lemma_col_move(self, col: int)
        requires
            self.bits_ok(),
            self.gravity_ok(),
            0 <= col < 8,
        ensures
            self.col_move_spec(col) == 0 <==> (col == 7 || cell(self.occupied, col, 5)),
            self.col_move_spec(col) != 0 ==> popcnt(self.col_move_spec(col)) == 1,
            self.col_move_spec(col) & self.legal_spec() == self.col_move_spec(col),
            self.col_move_spec(col) & self.occupied == 0,
            self.col_move_spec(col) != 0 ==> exists|r: int|
                self.landing(col, r) && self.col_move_spec(col) == 1u64 << ((8 * col + r) as u64),
    {
        self.lemma_legal_cells();
        let legal = self.legal_spec();
        let mask = BitBoard::FIRST_COLUMN << ((8 * col) as u64);
        let m = self.col_move_spec(col);
        assert forall|i: u64| i < 64 implies #[trigger] nth(m, i) == (nth(legal, i) && i / 8
            == col) by {
            lemma_bit_ops(legal, mask, i);
            lemma_bit_shift(BitBoard::FIRST_COLUMN, (8 * col) as u64, i);
            if i >= 8 * col {
                lemma_const_bits((i - 8 * col) as u64);
            }
        }
        assert forall|i: u64| i < 64 implies !nth(0u64, i) by {
            lemma_bit_zero(0u64, i);
        }
        if col == 7 || cell(self.occupied, col, 5) {
            // Full or out of range: no landing bit, so the word is zero.
            assert forall|i: u64| i < 64 implies !nth(m, i) by {
                if nth(m, i) {
                    let c = (i / 8) as int;
                    let r = (i % 8) as int;
                    assert(cell(legal, c, r) && i == (8 * c + r) as u64);
                    if cell(self.occupied, col, 5) {
                        self.lemma_gravity_down(col, r, 5);
                    }
                }
            }
            lemma_bit_ext(m, 0);
        } else {
            self.lemma_landing_exists(col);
            let r = choose|r: int| self.landing(col, r);
            let i = (8 * col + r) as u64;
            assert(cell(legal, col, r));
            assert forall|j: u64| j < 64 implies nth(m, j) == nth(1u64 << i, j) by {
                lemma_single_bit(i, j);
                if nth(m, j) {
                    let c2 = (j / 8) as int;
                    let r2 = (j % 8) as int;
                    assert(cell(legal, c2, r2) && j == (8 * c2 + r2) as u64);
                    self.lemma_landing_unique(col, r, r2);
                }
            }
            lemma_bit_ext(m, 1u64 << i);
            lemma_popcnt_single(i);
            lemma_bit_zero(1u64 << i, i);
        }
        assert forall|i: u64| i < 64 implies !nth(m & self.occupied, i) by {
            lemma_bit_ops(m, self.occupied, i);
            if nth(m, i) {
                let c = (i / 8) as int;
                let r = (i % 8) as int;
                assert(cell(legal, c, r) && i == (8 * c + r) as u64);
            }
        }
        lemma_bit_ext(m & self.occupied, 0);
        assert forall|i: u64| i < 64 implies nth(m & legal, i) == nth(m, i) by {
            lemma_bit_ops(m, legal, i);
            lemma_bit_ops(legal, mask, i);
        }
        lemma_bit_ext(m & legal, m);
    }

    /// A column with a free top square has a landing square.
    pub proof fn lemma_landing_exists(self, c: int)
        requires
            self.bits_ok(),
            self.gravity_ok(),
            0 <= c < 7,
            !cell(self.occupied, c, 5),
        ensures
            exists|r: int| self.landing(c, r),
    {
        if !cell(self.occupied, c, 0) {
            assert(self.landing(c, 0));
        } else {
            self.lemma_landing_climb(c, 0);
        }
    }

    proof fn lemma_landing_climb(self, c: int, r: int)
        requires
            self.bits_ok(),
            self.gravity_ok(),
            0 <= c < 7,
            0 <= r < 5,
            cell(self.occupied, c, r),
            !cell(self.occupied, c, 5),
        ensures
            exists|r2: int| self.landing(c, r2),
        decreases 5 - r,
    {
        if !cell(self.occupied, c, r + 1) {
            assert(self.landing(c, r + 1));
        } else {
            self.lemma_landing_climb(c, r + 1);
        }
    }

    /// At most one square of a column is a landing square.
    pub proof fn lemma_landing_unique(self, c: int, r1: int, r2: int)
        requires
            self.bits_ok(),
            self.gravity_ok(),
            self.landing(c, r1),
            self.landing(c, r2),
        ensures
            r1 == r2,
    {
        if r1 < r2 {
            self.lemma_gravity_down(c, r1, r2 - 1);
        }
        if r2 < r1 {
            self.lemma_gravity_down(c, r2, r1 - 1);
        }
    }
}

impl BitBoard {
    /// The word whose set bits are exactly the legal landing squares.
    #[inline]
    pub fn all_possible_moves(&self) -> (r: u64)
        requires
            self.bits_ok(),
            self.gravity_ok(),
        ensures
            r == self.legal_spec(),
            r & BitBoard::PLAYABLE_FIELDS == r,
            forall|c: int, rr: int|
                in_board(c, rr) ==> #[trigger] cell(r, c, rr) == self.landing(c, rr),
    {
        proof {
            self.lemma_legal_cells();
        }
        let occupied = self.occupied | BitBoard::TOP_LINE;
        let possible = occupied ^ ((occupied << 1) | BitBoard::BOTTOM_LINE);
        possible & BitBoard::PLAYABLE_FIELDS
    }

    /// The move of one column out of the legal-move word; zero when the
    /// column is full.
    #[inline]
    pub fn move_in_row(possible_moves: u64, column: u64) -> (r: u64)
        requires
            column < 8,
        ensures
            r == possible_moves & (BitBoard::FIRST_COLUMN << ((8 * column) as u64)),
    {
        let column_mask = BitBoard::FIRST_COLUMN << (8 * column);
        possible_moves & column_mask
    }

    /// Whether a stone can be dropped in `column`.
    pub fn is_move_valid(&self, column: u8) -> (r: bool)
        requires
            self.bits_ok(),
            self.gravity_ok(),
            column < 8,
        ensures
            r == (column < 7 && !cell(self.occupied, column as int, 5)),
    {
        proof {
            self.lemma_col_move(column as int);
        }
        let all_valid = self.all_possible_moves();
        BitBoard::move_in_row(all_valid, column as u64) > 0
    }

    /// Drops a stone for `player` in `column` without handing the turn over;
    /// `None` when the column is full.
    pub fn play_column(&self, column: u8, player: FieldType) -> (r: Option<BitBoard>)
        requires
            self.bits_ok(),
            self.gravity_ok(),
            column < 8,
        ensures
            r is Some <==> (column < 7 && !cell(self.occupied, column as int, 5)),
            r is Some ==> r->0 == (match player {
                FieldType::Player => BitBoard {
                    player: self.player | self.col_move_spec(column as int),
                    occupied: self.occupied | self.col_move_spec(column as int),
                },
                FieldType::Opponent => BitBoard {
                    player: self.player,
                    occupied: self.occupied | self.col_move_spec(column as int),
                },
            }),
    {
        proof {
            self.lemma_col_move(column as int);
        }
        let all_valid = self.all_possible_moves();
        let mov = BitBoard::move_in_row(all_valid, column as u64);
        if mov > 0 {
            let board = match player {
                FieldType::Opponent => BitBoard { player: self.player, occupied: self.occupied | mov },
                FieldType::Player => BitBoard {
                    player: self.player | mov,
                    occupied: self.occupied | mov,
                },
            };
            return Some(board);
        }
        None
    }
}

/// Four in a row upward from `(c, r)`.
pub open spec fn vert4(b: u64, c: int, r: int) -> bool {
    cell(b, c, r) && cell(b, c, r + 1) && cell(b, c, r + 2) && cell(b, c, r + 3)
}

/// Four in a row rightward from `(c, r)`.
pub open spec fn horiz4(b: u64, c: int, r: int) -> bool {
    cell(b, c, r) && cell(b, c + 1, r) && cell(b, c + 2, r) && cell(b, c + 3, r)
}

/// Four in a row diagonally up-right from `(c, r)`.
pub open spec fn diag_up4(b: u64, c: int, r: int) -> bool {
    cell(b, c, r) && cell(b, c + 1, r + 1) && cell(b, c + 2, r + 2) && cell(b, c + 3, r + 3)
}

/// Four in a row diagonally down-right from `(c, r)`.
pub open spec fn diag_down4(b: u64, c: int, r: int) -> bool {
    cell(b, c, r) && cell(b, c + 1, r - 1) && cell(b, c + 2, r - 2) && cell(b, c + 3, r - 3)
}

/// The stones of `b` hold four co-linear squares of the board.
pub open spec fn wins(b: u64) -> bool {
    ||| exists|c: int, r: int| 0 <= c < 7 && 0 <= r < 3 && #[trigger] vert4(b, c, r)
    ||| exists|c: int, r: int| 0 <= c < 4 && 0 <= r < 6 && #[trigger] horiz4(b, c, r)
    ||| exists|c: int, r: int| 0 <= c < 4 && 0 <= r < 3 && #[trigger] diag_up4(b, c, r)
    ||| exists|c: int, r: int| 0 <= c < 4 && 3 <= r < 6 && #[trigger] diag_down4(b, c, r)
}

/// Runs of four along one shift offset, marked on their top bit.
pub open spec fn dir_word(b: u64, o: u64) -> u64 {
    (b << ((2 * o) as u64)) & b
}

/// Whether some run of four exists along offset `o`.
pub open spec fn dir_formula(b: u64, o: u64) -> bool {
    ((dir_word(b, o) << o) & dir_word(b, o)) != 0
}

/// The shift-and test for all four line directions (offsets 1, 8, 9, 7).
pub open spec fn win_formula(b: u64) -> bool {
    dir_formula(b, 1) || dir_formula(b, 8) || dir_formula(b, 9) || dir_formula(b, 7)
}

/// A bit of the folded word marks four set bits spaced `o` apart below it.
proof fn lemma_dir_word_bit(b: u64, o: u64, j: u64)
    by (bit_vector)
    requires
        1 <= o,
        o <= 9,
        j < 64,
    ensures
        nth((dir_word(b, o) << o) & dir_word(b, o), j) == (j >= 3 * o && nth(b, j) && nth(
            b,
            (j - o) as u64,
        ) && nth(b, (j - 2 * o) as u64) && nth(b, (j - 3 * o) as u64)),
{
}

/// A set bit of a word within the playable mask names a board square.
pub proof fn lemma_member_playable(b: u64, x: u64)
    requires
        b & BitBoard::PLAYABLE_FIELDS == b,
        x < 64,
        nth(b, x),
    ensures
        x < 56,
        x % 8 < 6,
{
    lemma_bit_ops(b, BitBoard::PLAYABLE_FIELDS, x);
    lemma_const_bits(x);
}

proof fn lemma_wins_vert(b: u64)
    requires
        b & BitBoard::PLAYABLE_FIELDS == b,
    ensures
        dir_formula(b, 1) == (exists|c: int, r: int|
            0 <= c < 7 && 0 <= r < 3 && #[trigger] vert4(b, c, r)),
{
    let w = (dir_word(b, 1) << 1) & dir_word(b, 1);
    assert(dir_formula(b, 1) ==> exists|c: int, r: int|
        0 <= c < 7 && 0 <= r < 3 && #[trigger] vert4(b, c, r)) by {
        if dir_formula(b, 1) {
            lemma_nonzero_has_bit(w);
            let j = choose|j: u64| j < 64 && nth(w, j);
            lemma_dir_word_bit(b, 1, j);
            lemma_member_playable(b, j);
            lemma_member_playable(b, (j - 1) as u64);
            lemma_member_playable(b, (j - 2) as u64);
            lemma_member_playable(b, (j - 3) as u64);
            let c = (j / 8) as int;
            let r = (j % 8) as int;
            assert(j == 8 * c + r);
            assert(r >= 3);
            assert(vert4(b, c, r - 3));
        }
    }
    assert((exists|c: int, r: int| 0 <= c < 7 && 0 <= r < 3 && #[trigger] vert4(b, c, r))
        ==> dir_formula(b, 1)) by {
        if exists|c: int, r: int| 0 <= c < 7 && 0 <= r < 3 && #[trigger] vert4(b, c, r) {
            let (c, r) = choose|c: int, r: int|
                0 <= c < 7 && 0 <= r < 3 && #[trigger] vert4(b, c, r);
            let j = (8 * c + r + 3) as u64;
            lemma_dir_word_bit(b, 1, j);
            assert(nth(w, j));
            lemma_bit_zero(w, j);
        }
    }
}

proof fn lemma_wins_horiz(b: u64)
    requires
        b & BitBoard::PLAYABLE_FIELDS == b,
    ensures
        dir_formula(b, 8) == (exists|c: int, r: int|
            0 <= c < 4 && 0 <= r < 6 && #[trigger] horiz4(b, c, r)),
{
    let w = (dir_word(b, 8) << 8) & dir_word(b, 8);
    assert(dir_formula(b, 8) ==> exists|c: int, r: int|
        0 <= c < 4 && 0 <= r < 6 && #[trigger] horiz4(b, c, r)) by {
        if dir_formula(b, 8) {
            lemma_nonzero_has_bit(w);
            let j = choose|j: u64| j < 64 && nth(w, j);
            lemma_dir_word_bit(b, 8, j);
            lemma_member_playable(b, j);
            let c = (j / 8) as int;
            let r = (j % 8) as int;
            assert(j == 8 * c + r);
            assert(horiz4(b, c - 3, r));
        }
    }
    assert((exists|c: int, r: int| 0 <= c < 4 && 0 <= r < 6 && #[trigger] horiz4(b, c, r))
        ==> dir_formula(b, 8)) by {
        if exists|c: int, r: int| 0 <= c < 4 && 0 <= r < 6 && #[trigger] horiz4(b, c, r) {
            let (c, r) = choose|c: int, r: int|
                0 <= c < 4 && 0 <= r < 6 && #[trigger] horiz4(b, c, r);
            let j = (8 * (c + 3) + r) as u64;
            lemma_dir_word_bit(b, 8, j);
            assert(nth(w, j));
            lemma_bit_zero(w, j);
        }
    }
}

proof fn lemma_wins_diag_up(b: u64)
    requires
        b & BitBoard::PLAYABLE_FIELDS == b,
    ensures
        dir_formula(b, 9) == (exists|c: int, r: int|
            0 <= c < 4 && 0 <= r < 3 && #[trigger] diag_up4(b, c, r)),
{
    let w = (dir_word(b, 9) << 9) & dir_word(b, 9);
    assert(dir_formula(b, 9) ==> exists|c: int, r: int|
        0 <= c < 4 && 0 <= r < 3 && #[trigger] diag_up4(b, c, r)) by {
        if dir_formula(b, 9) {
            lemma_nonzero_has_bit(w);
            let j = choose|j: u64| j < 64 && nth(w, j);
            lemma_dir_word_bit(b, 9, j);
            lemma_member_playable(b, j);
            lemma_member_playable(b, (j - 9) as u64);
            lemma_member_playable(b, (j - 18) as u64);
            lemma_member_playable(b, (j - 27) as u64);
            let c = (j / 8) as int;
            let r = (j % 8) as int;
            assert(j == 8 * c + r);
            assert(r >= 3);
            assert(diag_up4(b, c - 3, r - 3));
        }
    }
    assert((exists|c: int, r: int| 0 <= c < 4 && 0 <= r < 3 && #[trigger] diag_up4(b, c, r))
        ==> dir_formula(b, 9)) by {
        if exists|c: int, r: int| 0 <= c < 4 && 0 <= r < 3 && #[trigger] diag_up4(b, c, r) {
            let (c, r) = choose|c: int, r: int|
                0 <= c < 4 && 0 <= r < 3 && #[trigger] diag_up4(b, c, r);
            let j = (8 * (c + 3) + r + 3) as u64;
            lemma_dir_word_bit(b, 9, j);
            assert(nth(w, j));
            lemma_bit_zero(w, j);
        }
    }
}

proof fn lemma_wins_diag_down(b: u64)
    requires
        b & BitBoard::PLAYABLE_FIELDS == b,
    ensures
        dir_formula(b, 7) == (exists|c: int, r: int|
            0 <= c < 4 && 3 <= r < 6 && #[trigger] diag_down4(b, c, r)),
{
    let w = (dir_word(b, 7) << 7) & dir_word(b, 7);
    assert(dir_formula(b, 7) ==> exists|c: int, r: int|
        0 <= c < 4 && 3 <= r < 6 && #[trigger] diag_down4(b, c, r)) by {
        if dir_formula(b, 7) {
            lemma_nonzero_has_bit(w);
            let j = choose|j: u64| j < 64 && nth(w, j);
            lemma_dir_word_bit(b, 7, j);
            lemma_member_playable(b, j);
            lemma_member_playable(b, (j - 7) as u64);
            lemma_member_playable(b, (j - 14) as u64);
            lemma_member_playable(b, (j - 21) as u64);
            let c = (j / 8) as int;
            let r = (j % 8) as int;
            assert(j == 8 * c + r);
            assert(r < 3);
            assert(diag_down4(b, c - 3, r + 3));
        }
    }
    assert((exists|c: int, r: int| 0 <= c < 4 && 3 <= r < 6 && #[trigger] diag_down4(b, c, r))
        ==> dir_formula(b, 7)) by {
        if exists|c: int, r: int| 0 <= c < 4 && 3 <= r < 6 && #[trigger] diag_down4(b, c, r) {
            let (c, r) = choose|c: int, r: int|
                0 <= c < 4 && 3 <= r < 6 && #[trigger] diag_down4(b, c, r);
            let j = (8 * (c + 3) + r - 3) as u64;
            lemma_dir_word_bit(b, 7, j);
            assert(nth(w, j));
            lemma_bit_zero(w, j);
        }
    }
}

/// On a word of board squares the shift-and test decides exactly the
/// four-in-a-row predicate.
pub proof fn lemma_win_formula(b: u64)
    requires
        b & BitBoard::PLAYABLE_FIELDS == b,
    ensures
        win_formula(b) == wins(b),
{
    lemma_wins_vert(b);
    lemma_wins_horiz(b);
    lemma_wins_diag_up(b);
    lemma_wins_diag_down(b);
}

/// A subset of a masked word is itself masked.
pub proof fn lemma_subset_trans(x: u64, y: u64, z: u64)
    by (bit_vector)
    requires
        x & y == x,
        y & z == y,
    ensures
        x & z == x,
{
}

/// The union of two masked words is masked.
pub proof fn lemma_or_mask(x: u64, y: u64, z: u64)
    by (bit_vector)
    requires
        x & z == x,
        y & z == y,
    ensures
        (x | y) & z == x | y,
{
}

/// How the opponent's stones sit against the mover's.
pub proof fn lemma_opp_bits(p: u64, o: u64)
    by (bit_vector)
    requires
        p & o == p,
    ensures
        (o & !p) & o == o & !p,
        (o & !p) & p == 0,
        p & (o & !p) == 0,
        p | (o & !p) == o,
{
}

/// A word of popcount one with a known set bit is that single bit.
pub proof fn lemma_popcnt_one(m: u64, i: u64)
    requires
        popcnt(m) == 1,
        i < 64,
        nth(m, i),
    ensures
        m == 1u64 << i,
{
    lemma_popcnt_split(m, 1u64 << i);
    assert forall|j: u64| j < 64 implies nth(m & (1u64 << i), j) == nth(1u64 << i, j) by {
        lemma_bit_ops(m, 1u64 << i, j);
        lemma_single_bit(i, j);
    }
    lemma_bit_ext(m & (1u64 << i), 1u64 << i);
    lemma_popcnt_single(i);
    if m & !(1u64 << i) != 0 {
        crate::bits::lemma_popcnt_pos(m & !(1u64 << i));
    }
    assert forall|j: u64| j < 64 implies nth(m, j) == nth(1u64 << i, j) by {
        lemma_bit_ops(m, !(1u64 << i), j);
        lemma_bit_ops(1u64 << i, 1u64 << i, j);
        lemma_single_bit(i, j);
        lemma_bit_zero(m & !(1u64 << i), j);
    }
    lemma_bit_ext(m, 1u64 << i);
}

impl BitBoard {
    /// Whether the given stones hold a four-in-a-row, by the shift-and test.
    #[inline]
    pub fn is_winning_board(player_position: u64) -> (r: bool)
        ensures
            r == win_formula(player_position),
            player_position & BitBoard::PLAYABLE_FIELDS == player_position ==> r == wins(
                player_position,
            ),
    {
        proof {
            if player_position & BitBoard::PLAYABLE_FIELDS == player_position {
                lemma_win_formula(player_position);
            }
        }
        let board = player_position;
        // Check vertical
        let v = (board << 2) & board;
        let mut winning = ((v << 1) & v) > 0;

        // Check horizontal
        let h = (board << 16) & board;
        winning = winning || ((h << 8) & h) > 0;

        // Check diagonal up-right
        let d1 = (board << 18) & board;
        winning = winning || ((d1 << 9) & d1) > 0;

        // Check diagonal up-left
        let d2 = (board << 14) & board;
        winning = winning || ((d2 << 7) & d2) > 0;

        winning
    }

    /// Whether the side to move holds a four-in-a-row.
    pub fn has_won(&self) -> (r: bool)
        requires
            self.bits_ok(),
        ensures
            r == wins(self.player),
    {
        proof {
            lemma_subset_trans(self.player, self.occupied, BitBoard::PLAYABLE_FIELDS);
        }
        BitBoard::is_winning_board(self.player)
    }

    /// Whether the opponent holds a four-in-a-row.
    pub fn has_lost(&self) -> (r: bool)
        requires
            self.bits_ok(),
        ensures
            r == wins(self.opp_spec()),
    {
        proof {
            lemma_sub_subset(self.player, self.occupied);
            lemma_opp_bits(self.player, self.occupied);
            lemma_subset_trans(self.opp_spec(), self.occupied, BitBoard::PLAYABLE_FIELDS);
        }
        BitBoard::is_winning_board(self.occupied - self.player)
    }

    /// Whether dropping a stone of the side to move on the empty square
    /// `field` completes a four-in-a-row.
    pub fn is_winning_move(&self, field: u64) -> (r: bool)
        requires
            self.bits_ok(),
            field & BitBoard::PLAYABLE_FIELDS == field,
            field & self.occupied == 0,
        ensures
            r == wins(self.player | field),
    {
        proof {
            lemma_subset_trans(self.player, self.occupied, BitBoard::PLAYABLE_FIELDS);
            lemma_or_mask(self.player, field, BitBoard::PLAYABLE_FIELDS);
        }
        BitBoard::is_winning_board(self.player | field)
    }
}

impl BitBoard {
    /// Playing a legal move preserves each board invariant the position has,
    /// grows the board by one stone, and hands exactly the mover's stones
    /// plus the move to the new opponent.
    pub proof fn lemma_play_wf(self, m: u64)
        requires
            self.bits_ok(),
            self.gravity_ok(),
            m != 0,
            m & self.legal_spec() == m,
            popcnt(m) == 1,
        ensures
            self.play_spec(m).bits_ok(),
            self.play_spec(m).gravity_ok(),
            self.balanced() ==> self.play_spec(m).balanced(),
            self.wf() ==> self.play_spec(m).wf(),
            popcnt(self.play_spec(m).occupied) == popcnt(self.occupied) + 1,
            self.play_spec(m).player == self.opp_spec(),
            self.play_spec(m).opp_spec() == self.player | m,
            self.play_spec(m).occupied == self.occupied | m,
    {
        let occ = self.occupied;
        let pl = self.player;
        let opp = self.opp_spec();
        self.lemma_legal_cells();
        lemma_nonzero_has_bit(m);
        let i = choose|i: u64| i < 64 && nth(m, i);
        lemma_popcnt_one(m, i);
        lemma_bit_ops(m, self.legal_spec(), i);
        assert(nth(self.legal_spec(), i));
        let c = (i / 8) as int;
        let r = (i % 8) as int;
        assert(i == 8 * c + r);
        assert(cell(self.legal_spec(), c, r));
        assert(self.landing(c, r));
        // The move bit is fresh and playable.
        assert(!nth(occ, i));
        lemma_const_bits(i);
        let after = self.play_spec(m);
        lemma_sub_subset(pl, occ);
        lemma_opp_bits(pl, occ);
        assert(after.player == opp);
        // Pointwise facts about the new words.
        assert forall|j: u64| j < 64 implies nth(after.occupied, j) == (nth(occ, j) || j == i) by {
            lemma_bit_ops(occ, m, j);
            lemma_single_bit(i, j);
        }
        // bits_ok: the new mover's stones lie inside the new occupancy, and
        // padding stays clear.
        assert forall|j: u64| j < 64 implies nth(after.player & after.occupied, j) == nth(
            after.player,
            j,
        ) by {
            lemma_bit_ops(after.player, after.occupied, j);
            lemma_bit_ops(occ, !pl, j);
            lemma_bit_ops(pl, pl, j);
        }
        lemma_bit_ext(after.player & after.occupied, after.player);
        assert(m & BitBoard::PLAYABLE_FIELDS == m) by {
            assert forall|j: u64| j < 64 implies nth(m & BitBoard::PLAYABLE_FIELDS, j) == nth(
                m,
                j,
            ) by {
                lemma_bit_ops(m, BitBoard::PLAYABLE_FIELDS, j);
                lemma_single_bit(i, j);
                lemma_const_bits(j);
            }
            lemma_bit_ext(m & BitBoard::PLAYABLE_FIELDS, m);
        }
        lemma_or_mask(occ, m, BitBoard::PLAYABLE_FIELDS);
        // Gravity: the move square rests on row 0 or an occupied square.
        assert forall|j: u64| j < 64 implies !nth(
            ((after.occupied >> 1) & BitBoard::PLAYABLE_FIELDS) & !after.occupied,
            j,
        ) by {
            lemma_bit_ops((after.occupied >> 1) & BitBoard::PLAYABLE_FIELDS, !after.occupied, j);
            lemma_bit_ops(after.occupied >> 1, BitBoard::PLAYABLE_FIELDS, j);
            lemma_bit_ops(after.occupied, after.occupied, j);
            lemma_bit_shift(after.occupied, 1, j);
            lemma_const_bits(j);
            if j + 1 < 64 && nth(after.occupied, (j + 1) as u64) && j < 56 && j % 8 < 6 && !nth(
                after.occupied,
                j,
            ) {
                if nth(occ, (j + 1) as u64) {
                    // Old gravity rules this out.
                    lemma_bit_zero(((occ >> 1) & BitBoard::PLAYABLE_FIELDS) & !occ, j);
                    lemma_bit_ops((occ >> 1) & BitBoard::PLAYABLE_FIELDS, !occ, j);
                    lemma_bit_ops(occ >> 1, BitBoard::PLAYABLE_FIELDS, j);
                    lemma_bit_ops(occ, occ, j);
                    lemma_bit_shift(occ, 1, j);
                } else {
                    // The new stone: it sits on an occupied square.
                    assert((j + 1) as u64 == i);
                    assert(j % 8 == r - 1 && j == 8 * c + (r - 1));
                    assert(cell(occ, c, r - 1));
                }
            }
        }
        assert forall|j: u64| j < 64 implies !nth(0u64, j) by {
            lemma_bit_zero(0u64, j);
        }
        lemma_bit_ext(((after.occupied >> 1) & BitBoard::PLAYABLE_FIELDS) & !after.occupied, 0);
        // The new opponent's stones are the mover's plus the move.
        assert forall|j: u64| j < 64 implies nth(after.opp_spec(), j) == nth(pl | m, j) by {
            lemma_bit_ops(after.occupied, !after.player, j);
            lemma_bit_ops(after.player, after.player, j);
            lemma_bit_ops(occ, !pl, j);
            lemma_bit_ops(pl, m, j);
            lemma_bit_ops(occ, m, j);
            lemma_bit_ops(pl, occ, j);
            lemma_single_bit(i, j);
        }
        lemma_bit_ext(after.opp_spec(), pl | m);
        // Stone counts: the move bit is disjoint from both old words.
        assert(m & occ == 0 && m & pl == 0) by {
            assert forall|j: u64| j < 64 implies !nth(m & occ, j) && !nth(m & pl, j) by {
                lemma_bit_ops(m, occ, j);
                lemma_bit_ops(m, pl, j);
                lemma_bit_ops(pl, occ, j);
                lemma_single_bit(i, j);
            }
            lemma_bit_ext(m & occ, 0);
            lemma_bit_ext(m & pl, 0);
        }
        assert(occ & m == 0 && pl & m == 0) by {
            assert forall|j: u64| j < 64 implies !nth(occ & m, j) && !nth(pl & m, j) by {
                lemma_bit_ops(occ, m, j);
                lemma_bit_ops(pl, m, j);
                lemma_bit_ops(m, occ, j);
                lemma_bit_ops(m, pl, j);
                lemma_bit_zero(m & occ, j);
                lemma_bit_zero(m & pl, j);
            }
            lemma_bit_ext(occ & m, 0);
            lemma_bit_ext(pl & m, 0);
        }
        lemma_popcnt_disjoint(occ, m);
        lemma_popcnt_disjoint(pl, m);
        lemma_popcnt_single(i);
        // Balance: the mover had at most as many stones as the opponent.
        lemma_popcnt_split(occ, pl);
        assert(occ & pl == pl && occ & !pl == opp) by {
            assert forall|j: u64| j < 64 implies nth(occ & pl, j) == nth(pl, j) by {
                lemma_bit_ops(occ, pl, j);
                lemma_bit_ops(pl, occ, j);
            }
            lemma_bit_ext(occ & pl, pl);
        }
    }
}

/// A transient pair of heuristic counters: open chains of three and of two.
pub struct OpenChains {
    pub three: i32,
    pub two: i32,
}

/// An intersection with a word stays inside that word.
pub proof fn lemma_and_subset(x: u64, y: u64)
    by (bit_vector)
    ensures
        (x & y) & x == x & y,
        (x & y) & y == x & y,
{
}

/// Swapping the side to move leaves the mover and opponent words exchanged.
pub proof fn lemma_swap_bits(p: u64, o: u64)
    by (bit_vector)
    requires
        p & o == p,
    ensures
        (o ^ p) & o == o ^ p,
        o & !(o ^ p) == p,
        o ^ (o ^ p) == p,
        o & !p == o ^ p,
{
}

/// The high bit of every four-square window of `space` along offset `o`.
pub open spec fn open_windows(space: u64, o: u64) -> u64 {
    let tmp = (space << ((2 * o) as u64)) & space;
    (tmp << o) & tmp
}

/// The window tops of `space` along offset `o`, together with the three
/// squares shifted further up each line: the band the material count weighs
/// stones in.
pub open spec fn window_cover(space: u64, o: u64) -> u64 {
    let pw = open_windows(space, o);
    pw | (pw << o) | (pw << ((2 * o) as u64)) | (pw << ((3 * o) as u64))
}

/// How many of the `player` stones fall in the cover band of the windows
/// free of `opponent` stones, summed over the four directions (a stone in
/// the band of several directions counts once per direction).
pub open spec fn material_spec(player: u64, opponent: u64) -> int {
    let space = BitBoard::PLAYABLE_FIELDS & !opponent;
    popcnt(player & window_cover(space, 1)) + popcnt(player & window_cover(space, 8)) + popcnt(
        player & window_cover(space, 9),
    ) + popcnt(player & window_cover(space, 7)) as int
}

/// Middle stones of three-in-a-rows along offset `o`.
pub open spec fn chain3_word(p: u64, o: u64) -> u64 {
    (p << o) & (p >> o) & p
}

/// The count of open three-chains along one direction: chains of three less
/// those blocked on both ends and those pressed against the border.
pub open spec fn chains3_dir(p: u64, oc: u64, cm: u64, o: u64) -> int {
    let c3 = chain3_word(p, o);
    let closed_r = (c3 << ((2 * o) as u64)) & oc;
    let closed_l = (c3 >> ((2 * o) as u64)) & oc;
    let closed = (closed_l << ((4 * o) as u64)) & closed_r;
    let border = (cm & c3) & (closed_r >> ((2 * o) as u64));
    popcnt(c3) - popcnt(closed) - popcnt(border)
}

/// The stones left after removing every three-chain along offset `o`.
pub open spec fn without3(p: u64, o: u64) -> u64 {
    let c3 = chain3_word(p, o);
    p & !(c3 | (c3 << o) | (c3 >> o))
}

/// The count of open two-chains along one direction.
pub open spec fn chains2_dir(p: u64, oc: u64, cm: u64, o: u64) -> int {
    let c2 = (p << o) & p;
    let closed_r = (c2 << o) & oc;
    let closed_l = (c2 >> ((2 * o) as u64)) & oc;
    let closed = (closed_l << ((3 * o) as u64)) & closed_r;
    let border = (cm & c2) & (closed_r >> ((2 * o) as u64));
    popcnt(c2) - popcnt(closed) - popcnt(border)
}

/// Open three-chains of `player` over all four directions.
pub open spec fn open_threes(player: u64, occupied: u64) -> int {
    let oc = occupied | !BitBoard::PLAYABLE_FIELDS;
    chains3_dir(player, oc, 0x2, 1) + chains3_dir(player, oc, 0x3F00, 8) + chains3_dir(
        player,
        oc,
        0x21E00,
        9,
    ) + chains3_dir(player, oc, 0x1E00, 7)
}

/// Open two-chains of `player` over all four directions, not counting stones
/// already on a three-chain of the same direction.
pub open spec fn open_twos(player: u64, occupied: u64) -> int {
    let oc = occupied | !BitBoard::PLAYABLE_FIELDS;
    chains2_dir(without3(player, 1), oc, 0x2, 1) + chains2_dir(without3(player, 8), oc, 0x3F00, 8)
        + chains2_dir(without3(player, 9), oc, 0x21E00, 9) + chains2_dir(
        without3(player, 7),
        oc,
        0x1E00,
        7,
    )
}

/// Squares that would complete a four-in-a-row for the given stones, along
/// one offset: the two middle-gap patterns and the two ends of a run of
/// three.
pub open spec fn wspots_dir(player: u64, o: u64) -> u64 {
    let two = (player << o) & player;
    let three = two & (two << o);
    (((two << o) & (player >> o)) | ((two >> ((2 * o) as u64)) & (player << o))) | ((three >> ((3
        * o) as u64)) | (three << o))
}

/// Playable squares that would complete a four-in-a-row for the given
/// stones: the vertical square above a run of three, and every pattern of
/// the three other directions.
pub open spec fn wspots(player: u64) -> u64 {
    ((((player << 1) & (player << 2) & (player << 3)) | wspots_dir(player, 8)) | wspots_dir(
        player,
        7,
    ) | wspots_dir(player, 9)) & BitBoard::PLAYABLE_FIELDS
}

impl BitBoard {
    /// The material heuristic of this position: the mover's covered stones
    /// less the opponent's.
    pub open spec fn heuristic2_spec(self) -> int {
        material_spec(self.player, self.opp_spec()) - material_spec(self.opp_spec(), self.player)
    }

    /// The winning-squares heuristic: each side's distinct empty winning
    /// squares, differenced.
    pub open spec fn heuristic3_spec(self) -> int {
        popcnt(wspots(self.player) & !self.occupied) - popcnt(
            wspots(self.opp_spec()) & !self.occupied,
        )
    }

    /// The chain heuristic: open threes count double, open twos once.
    pub open spec fn heuristic_spec(self) -> int {
        (open_threes(self.player, self.occupied) - open_threes(self.opp_spec(), self.occupied)) * 2
            + (open_twos(self.player, self.occupied) - open_twos(self.opp_spec(), self.occupied))
    }

    /// The position with the side to move exchanged.
    pub open spec fn swapped_spec(self) -> BitBoard {
        BitBoard { player: self.occupied ^ self.player, occupied: self.occupied }
    }

    #[inline]
    fn heuristic_helper_2(player_space: u64, player: u64, offset: u32) -> (r: u32)
        requires
            1 <= offset <= 9,
        ensures
            r == popcnt(player & window_cover(player_space, offset as u64)),
            r <= 64,
    {
        let tmp = (player_space << (2 * offset)) & player_space;
        let possible_wins = (tmp << offset) & tmp;
        let win_mask = possible_wins | (possible_wins << offset) | (possible_wins << (2 * offset))
            | (possible_wins << (3 * offset));
        popcount(player & win_mask)
    }

    /// The covered-stone count of one side.
    #[inline]
    fn material_score(player: u64, opponent: u64) -> (r: i32)
        ensures
            r == material_spec(player, opponent),
            0 <= r <= 256,
    {
        let player_space = BitBoard::PLAYABLE_FIELDS & !opponent;
        let mut score = BitBoard::heuristic_helper_2(player_space, player, 1);
        score += BitBoard::heuristic_helper_2(player_space, player, 8);
        score += BitBoard::heuristic_helper_2(player_space, player, 9);
        score += BitBoard::heuristic_helper_2(player_space, player, 7);
        score as i32
    }

    /// The material heuristic, from the side to move's perspective.
    pub fn heuristic_2(&self) -> (r: i32)
        requires
            self.bits_ok(),
        ensures
            r == self.heuristic2_spec(),
            -256 <= r <= 256,
    {
        let player = self.player;
        let occupied = self.occupied;
        proof {
            lemma_sub_subset(player, occupied);
        }
        let opponent = occupied - player;
        BitBoard::material_score(player, opponent) - BitBoard::material_score(opponent, player)
    }

    /// The winning-squares heuristic, from the side to move's perspective.
    pub fn heuristic3(&self) -> (r: i32)
        requires
            self.bits_ok(),
        ensures
            r == self.heuristic3_spec(),
            -64 <= r <= 64,
    {
        let winning_player = BitBoard::winning_spots(self.player) & !self.occupied;
        let winning_opponent = BitBoard::winning_spots(self.opponent()) & !self.occupied;
        popcount(winning_player) as i32 - popcount(winning_opponent) as i32
    }

    #[inline]
    fn chain_helper(player: u64, occupied_closed: u64, closed_mask: u64, offset: u64) -> (r: (
        i32,
        u64,
    ))
        requires
            1 <= offset <= 9,
        ensures
            r.0 == chains3_dir(player, occupied_closed, closed_mask, offset),
            -128 <= r.0 <= 64,
            r.1 == without3(player, offset),
    {
        let chains_three = (player << offset) & (player >> offset) & player;
        let closed_r = (chains_three << (2 * offset)) & occupied_closed;
        let closed_l = (chains_three >> (2 * offset)) & occupied_closed;
        let closed = (closed_l << (4 * offset)) & closed_r;
        let closed_border = (closed_mask & chains_three) & (closed_r >> (2 * offset));
        let chains = popcount(chains_three) as i32 - popcount(closed) as i32 - popcount(
            closed_border,
        ) as i32;
        let gone = chains_three | (chains_three << offset) | (chains_three >> offset);
        proof {
            lemma_chain_sub(player, offset);
            lemma_sub_subset(gone & player, player);
        }
        let without_three = player - (gone & player);
        proof {
            assert(player & !(gone & player) == player & !gone) by (bit_vector);
        }
        (chains, without_three)
    }

    #[inline]
    fn chain_helper_two(player: u64, occupied_closed: u64, closed_mask: u64, offset: u64) -> (r:
        i32)
        requires
            1 <= offset <= 9,
        ensures
            r == chains2_dir(player, occupied_closed, closed_mask, offset),
            -128 <= r <= 64,
    {
        let chains_two = (player << offset) & player;
        let closed_r = (chains_two << offset) & occupied_closed;
        let closed_l = (chains_two >> (2 * offset)) & occupied_closed;
        let closed = (closed_l << (3 * offset)) & closed_r;
        let closed_border = (closed_mask & chains_two) & (closed_r >> (2 * offset));
        popcount(chains_two) as i32 - popcount(closed) as i32 - popcount(closed_border) as i32
    }

    /// Counts the open three-chains and two-chains of one side.
    pub fn num_chains(player: u64, occupied: u64) -> (r: OpenChains)
        ensures
            r.three == open_threes(player, occupied),
            r.two == open_twos(player, occupied),
            -512 <= r.three <= 256,
            -512 <= r.two <= 256,
    {
        let occupied_closed = occupied | !BitBoard::PLAYABLE_FIELDS;

        // Vertical
        let (number, without) = BitBoard::chain_helper(player, occupied_closed, 0x2, 1);
        let mut chains_two = BitBoard::chain_helper_two(without, occupied_closed, 0x2, 1);
        let mut chains_three = number;

        // Horizontal
        let (number, without) = BitBoard::chain_helper(player, occupied_closed, 0x3F00, 8);
        chains_two += BitBoard::chain_helper_two(without, occupied_closed, 0x3F00, 8);
        chains_three += number;

        // Diagonal up-right
        let (number, without) = BitBoard::chain_helper(player, occupied_closed, 0x21E00, 9);
        chains_two += BitBoard::chain_helper_two(without, occupied_closed, 0x21E00, 9);
        chains_three += number;

        // Diagonal down-right
        let (number, without) = BitBoard::chain_helper(player, occupied_closed, 0x1E00, 7);
        chains_two += BitBoard::chain_helper_two(without, occupied_closed, 0x1E00, 7);
        chains_three += number;

        OpenChains { three: chains_three, two: chains_two }
    }

    /// The open-three count alone, summed over the four directions.
    pub fn score_new(player: u64, occupied: u64) -> (r: i32)
        ensures
            r == open_threes(player, occupied),
            -512 <= r <= 256,
    {
        let occupied_closed = occupied | !BitBoard::PLAYABLE_FIELDS;
        let (a, _) = BitBoard::chain_helper(player, occupied_closed, 0x2, 1);
        let (b, _) = BitBoard::chain_helper(player, occupied_closed, 0x3F00, 8);
        let (c, _) = BitBoard::chain_helper(player, occupied_closed, 0x21E00, 9);
        let (d, _) = BitBoard::chain_helper(player, occupied_closed, 0x1E00, 7);
        a + b + c + d
    }

    /// The chain heuristic, from the side to move's perspective.
    pub fn heuristic(&self) -> (r: i32)
        requires
            self.bits_ok(),
        ensures
            r == self.heuristic_spec(),
            -3072 <= r <= 3072,
    {
        let player = self.player;
        let occupied = self.occupied;
        proof {
            lemma_sub_subset(player, occupied);
        }
        let opponent = occupied - player;

        let score_p = BitBoard::num_chains(player, occupied);
        let score_o = BitBoard::num_chains(opponent, occupied);

        (score_p.three - score_o.three) * 2 + (score_p.two - score_o.two)
    }

    #[inline]
    fn winning_spots_helper(player: u64, offset: u64) -> (r: u64)
        requires
            1 <= offset <= 9,
        ensures
            r == wspots_dir(player, offset),
    {
        let two_h = (player << offset) & player;
        let mut p = (two_h << offset) & (player >> offset);
        p = p | ((two_h >> (2 * offset)) & (player << offset));
        let three_h = two_h & (two_h << offset);
        p = p | ((three_h >> (3 * offset)) | (three_h << offset));
        p
    }

    #[inline]
    fn opponent(&self) -> (r: u64)
        requires
            self.player & self.occupied == self.player,
        ensures
            r == self.opp_spec(),
    {
        proof {
            lemma_sub_subset(self.player, self.occupied);
        }
        self.occupied - self.player
    }

    /// Every playable square that would, if held by the given stones,
    /// complete a four-in-a-row (the vertical direction marks only the
    /// square above a run of three; a square below stones cannot be played).
    pub fn winning_spots(player: u64) -> (r: u64)
        ensures
            r == wspots(player),
            r & BitBoard::PLAYABLE_FIELDS == r,
    {
        proof {
            lemma_and_subset(
                (((player << 1) & (player << 2) & (player << 3)) | wspots_dir(player, 8))
                    | wspots_dir(player, 7) | wspots_dir(player, 9),
                BitBoard::PLAYABLE_FIELDS,
            );
        }
        // Vertical
        let mut p = (player << 1) & (player << 2) & (player << 3);
        // Horizontal
        p = p | BitBoard::winning_spots_helper(player, 8);
        // Diagonal (up_left)
        p = p | BitBoard::winning_spots_helper(player, 7);
        // Diagonal (up_right)
        p = p | BitBoard::winning_spots_helper(player, 9);
        p & BitBoard::PLAYABLE_FIELDS
    }

    /// The word of forced replies: legal squares on which the opponent would
    /// complete a four-in-a-row next turn.
    pub fn forced_moves(&self) -> (r: u64)
        requires
            self.bits_ok(),
            self.gravity_ok(),
        ensures
            r == self.forced_spec(),
    {
        BitBoard::winning_spots(self.opponent()) & self.all_possible_moves()
    }

    /// The forced replies: threatened legal landing squares.
    pub open spec fn forced_spec(self) -> u64 {
        wspots(self.opp_spec()) & self.legal_spec()
    }
}

/// Three stones directly below the square.
pub open spec fn vert_top_spot(p: u64, c: int, r: int) -> bool {
    3 <= r && cell(p, c, r - 1) && cell(p, c, r - 2) && cell(p, c, r - 3)
}

/// The other three squares of some horizontal window through the square.
pub open spec fn horiz_spot(p: u64, c: int, r: int) -> bool {
    ||| (3 <= c && cell(p, c - 1, r) && cell(p, c - 2, r) && cell(p, c - 3, r))
    ||| (2 <= c && c < 6 && cell(p, c - 1, r) && cell(p, c - 2, r) && cell(p, c + 1, r))
    ||| (1 <= c && c < 5 && cell(p, c - 1, r) && cell(p, c + 1, r) && cell(p, c + 2, r))
    ||| (c < 4 && cell(p, c + 1, r) && cell(p, c + 2, r) && cell(p, c + 3, r))
}

/// The other three squares of some up-right diagonal window through the
/// square.
pub open spec fn diag_up_spot(p: u64, c: int, r: int) -> bool {
    ||| (3 <= c && 3 <= r && cell(p, c - 1, r - 1) && cell(p, c - 2, r - 2) && cell(
        p,
        c - 3,
        r - 3,
    ))
    ||| (2 <= c && c < 6 && 2 <= r && r < 5 && cell(p, c - 1, r - 1) && cell(p, c - 2, r - 2)
        && cell(p, c + 1, r + 1))
    ||| (1 <= c && c < 5 && 1 <= r && r < 4 && cell(p, c - 1, r - 1) && cell(p, c + 1, r + 1)
        && cell(p, c + 2, r + 2))
    ||| (c < 4 && r < 3 && cell(p, c + 1, r + 1) && cell(p, c + 2, r + 2) && cell(p, c + 3, r + 3))
}

/// The other three squares of some down-right diagonal window through the
/// square.
pub open spec fn diag_down_spot(p: u64, c: int, r: int) -> bool {
    ||| (3 <= c && r < 3 && cell(p, c - 1, r + 1) && cell(p, c - 2, r + 2) && cell(p, c - 3, r + 3))
    ||| (2 <= c && c < 6 && 1 <= r && r < 4 && cell(p, c - 1, r + 1) && cell(p, c - 2, r + 2)
        && cell(p, c + 1, r - 1))
    ||| (1 <= c && c < 5 && 2 <= r && r < 5 && cell(p, c - 1, r + 1) && cell(p, c + 1, r - 1)
        && cell(p, c + 2, r - 2))
    ||| (c < 4 && 3 <= r && cell(p, c + 1, r - 1) && cell(p, c + 2, r - 2) && cell(p, c + 3, r - 3))
}

/// A bit of the one-direction spot word marks three stones in window
/// position around it.
proof fn lemma_wspots_dir_bit(p: u64, o: u64, i: u64)
    by (bit_vector)
    requires
        1 <= o,
        o <= 9,
        i < 64,
    ensures
        nth(wspots_dir(p, o), i) == ({
            ||| (i >= 2 * o && i + o < 64 && nth(p, (i - o) as u64) && nth(p, (i - 2 * o) as u64)
                && nth(p, (i + o) as u64))
            ||| (i >= o && i + 2 * o < 64 && nth(p, (i - o) as u64) && nth(p, (i + o) as u64) && nth(
                p,
                (i + 2 * o) as u64,
            ))
            ||| (i + 3 * o < 64 && nth(p, (i + o) as u64) && nth(p, (i + 2 * o) as u64) && nth(
                p,
                (i + 3 * o) as u64,
            ))
            ||| (i >= 3 * o && nth(p, (i - o) as u64) && nth(p, (i - 2 * o) as u64) && nth(
                p,
                (i - 3 * o) as u64,
            ))
        }),
{
}

proof fn lemma_spot_cells_dir(p: u64, o: u64, c: int, r: int)
    requires
        p & BitBoard::PLAYABLE_FIELDS == p,
        in_board(c, r),
        o == 8 || o == 9 || o == 7,
    ensures
        o == 8 ==> nth(wspots_dir(p, 8), (8 * c + r) as u64) == horiz_spot(p, c, r),
        o == 9 ==> nth(wspots_dir(p, 9), (8 * c + r) as u64) == diag_up_spot(p, c, r),
        o == 7 ==> nth(wspots_dir(p, 7), (8 * c + r) as u64) == diag_down_spot(p, c, r),
{
    let i = (8 * c + r) as u64;
    lemma_wspots_dir_bit(p, o, i);
    // Any stone named by a pattern sits on the board, which pins its
    // coordinates.
    if i >= o && nth(p, (i - o) as u64) {
        lemma_member_playable(p, (i - o) as u64);
    }
    if i >= 2 * o && nth(p, (i - 2 * o) as u64) {
        lemma_member_playable(p, (i - 2 * o) as u64);
    }
    if i >= 3 * o && nth(p, (i - 3 * o) as u64) {
        lemma_member_playable(p, (i - 3 * o) as u64);
    }
    if i + o < 64 && nth(p, (i + o) as u64) {
        lemma_member_playable(p, (i + o) as u64);
    }
    if i + 2 * o < 64 && nth(p, (i + 2 * o) as u64) {
        lemma_member_playable(p, (i + 2 * o) as u64);
    }
    if i + 3 * o < 64 && nth(p, (i + 3 * o) as u64) {
        lemma_member_playable(p, (i + 3 * o) as u64);
    }
}

/// What the winning-spots word marks on each board square.
pub proof fn lemma_wspots_cells(p: u64, c: int, r: int)
    requires
        p & BitBoard::PLAYABLE_FIELDS == p,
        in_board(c, r),
    ensures
        cell(wspots(p), c, r) == (vert_top_spot(p, c, r) || horiz_spot(p, c, r) || diag_up_spot(
            p,
            c,
            r,
        ) || diag_down_spot(p, c, r)),
{
    let i = (8 * c + r) as u64;
    let vert = (p << 1) & (p << 2) & (p << 3);
    let stack = ((vert | wspots_dir(p, 8)) | wspots_dir(p, 7)) | wspots_dir(p, 9);
    lemma_bit_ops(stack, BitBoard::PLAYABLE_FIELDS, i);
    lemma_const_bits(i);
    lemma_bit_ops((vert | wspots_dir(p, 8)) | wspots_dir(p, 7), wspots_dir(p, 9), i);
    lemma_bit_ops(vert | wspots_dir(p, 8), wspots_dir(p, 7), i);
    lemma_bit_ops(vert, wspots_dir(p, 8), i);
    // Vertical: three stones directly below.
    lemma_bit_ops((p << 1) & (p << 2), p << 3, i);
    lemma_bit_ops(p << 1, p << 2, i);
    lemma_bit_shift(p, 1, i);
    lemma_bit_shift(p, 2, i);
    lemma_bit_shift(p, 3, i);
    if i >= 1 && nth(p, (i - 1) as u64) {
        lemma_member_playable(p, (i - 1) as u64);
    }
    if i >= 2 && nth(p, (i - 2) as u64) {
        lemma_member_playable(p, (i - 2) as u64);
    }
    if i >= 3 && nth(p, (i - 3) as u64) {
        lemma_member_playable(p, (i - 3) as u64);
    }
    lemma_spot_cells_dir(p, 8, c, r);
    lemma_spot_cells_dir(p, 9, c, r);
    lemma_spot_cells_dir(p, 7, c, r);
}

impl BitBoard {
    /// Above an empty square of a column no square is occupied.
    pub proof fn lemma_nothing_above_empty(self, c: int, r: int, r2: int)
        requires
            self.bits_ok(),
            self.gravity_ok(),
            in_board(c, r),
            in_board(c, r2),
            !cell(self.occupied, c, r),
            r < r2,
        ensures
            !cell(self.occupied, c, r2),
    {
        if cell(self.occupied, c, r2) {
            self.lemma_gravity_down(c, r, r2);
        }
    }

    /// On a landing square, the winning-spots word of the opponent marks
    /// exactly the squares whose occupation completes an opponent
    /// four-in-a-row.
    #[verifier::rlimit(60)]
    pub proof fn lemma_spot_completes(self, c: int, r: int)
        requires
            self.bits_ok(),
            self.gravity_ok(),
            !wins(self.opp_spec()),
            self.landing(c, r),
        ensures
            cell(wspots(self.opp_spec()), c, r) == wins(
                self.opp_spec() | (1u64 << ((8 * c + r) as u64)),
            ),
    {
        let p = self.opp_spec();
        let i = (8 * c + r) as u64;
        let m = 1u64 << i;
        let q = p | m;
        lemma_sub_subset(self.player, self.occupied);
        lemma_opp_bits(self.player, self.occupied);
        lemma_subset_trans(p, self.occupied, BitBoard::PLAYABLE_FIELDS);
        lemma_wspots_cells(p, c, r);
        // Each square of the filled word is an opponent stone or the landing
        // square itself.
        assert forall|x: int, y: int| in_board(x, y) implies #[trigger] cell(q, x, y) == (cell(
            p,
            x,
            y,
        ) || (x == c && y == r)) by {
            lemma_bit_ops(p, m, (8 * x + y) as u64);
            lemma_single_bit(i, (8 * x + y) as u64);
        }
        assert(q & BitBoard::PLAYABLE_FIELDS == q) by {
            assert forall|j: u64| j < 64 implies nth(q & BitBoard::PLAYABLE_FIELDS, j) == nth(
                q,
                j,
            ) by {
                lemma_bit_ops(q, BitBoard::PLAYABLE_FIELDS, j);
                lemma_bit_ops(p, m, j);
                lemma_single_bit(i, j);
                lemma_const_bits(j);
                if nth(p, j) {
                    lemma_member_playable(p, j);
                }
            }
            lemma_bit_ext(q & BitBoard::PLAYABLE_FIELDS, q);
        }
        // The opponent does not hold the landing square.
        assert(!cell(p, c, r)) by {
            lemma_bit_ops(self.occupied, !self.player, i);
            lemma_bit_ops(self.player, self.player, i);
        }
        if cell(wspots(p), c, r) {
            // A marked spot names a window; filling the square completes it.
            if vert_top_spot(p, c, r) {
                assert(0 <= c < 7 && 0 <= r - 3 < 3 && vert4(q, c, r - 3));
            } else if horiz_spot(p, c, r) {
                if 3 <= c && cell(p, c - 1, r) && cell(p, c - 2, r) && cell(p, c - 3, r) {
                    assert(0 <= c - 3 < 4 && 0 <= r < 6 && horiz4(q, c - 3, r));
                } else if 2 <= c && c < 6 && cell(p, c - 1, r) && cell(p, c - 2, r) && cell(
                    p,
                    c + 1,
                    r,
                ) {
                    assert(0 <= c - 2 < 4 && 0 <= r < 6 && horiz4(q, c - 2, r));
                } else if 1 <= c && c < 5 && cell(p, c - 1, r) && cell(p, c + 1, r) && cell(
                    p,
                    c + 2,
                    r,
                ) {
                    assert(0 <= c - 1 < 4 && 0 <= r < 6 && horiz4(q, c - 1, r));
                } else {
                    assert(0 <= c < 4 && 0 <= r < 6 && horiz4(q, c, r));
                }
            } else if diag_up_spot(p, c, r) {
                if 3 <= c && 3 <= r && cell(p, c - 1, r - 1) && cell(p, c - 2, r - 2) && cell(
                    p,
                    c - 3,
                    r - 3,
                ) {
                    assert(0 <= c - 3 < 4 && 0 <= r - 3 < 3 && diag_up4(q, c - 3, r - 3));
                } else if 2 <= c && c < 6 && 2 <= r && r < 5 && cell(p, c - 1, r - 1) && cell(
                    p,
                    c - 2,
                    r - 2,
                ) && cell(p, c + 1, r + 1) {
                    assert(0 <= c - 2 < 4 && 0 <= r - 2 < 3 && diag_up4(q, c - 2, r - 2));
                } else if 1 <= c && c < 5 && 1 <= r && r < 4 && cell(p, c - 1, r - 1) && cell(
                    p,
                    c + 1,
                    r + 1,
                ) && cell(p, c + 2, r + 2) {
                    assert(0 <= c - 1 < 4 && 0 <= r - 1 < 3 && diag_up4(q, c - 1, r - 1));
                } else {
                    assert(0 <= c < 4 && 0 <= r < 3 && diag_up4(q, c, r));
                }
            } else {
                if 3 <= c && r < 3 && cell(p, c - 1, r + 1) && cell(p, c - 2, r + 2) && cell(
                    p,
                    c - 3,
                    r + 3,
                ) {
                    assert(0 <= c - 3 < 4 && 3 <= r + 3 < 6 && diag_down4(q, c - 3, r + 3));
                } else if 2 <= c && c < 6 && 1 <= r && r < 4 && cell(p, c - 1, r + 1) && cell(
                    p,
                    c - 2,
                    r + 2,
                ) && cell(p, c + 1, r - 1) {
                    assert(0 <= c - 2 < 4 && 3 <= r + 2 < 6 && diag_down4(q, c - 2, r + 2));
                } else if 1 <= c && c < 5 && 2 <= r && r < 5 && cell(p, c - 1, r + 1) && cell(
                    p,
                    c + 1,
                    r - 1,
                ) && cell(p, c + 2, r - 2) {
                    assert(0 <= c - 1 < 4 && 3 <= r + 1 < 6 && diag_down4(q, c - 1, r + 1));
                } else {
                    assert(0 <= c < 4 && 3 <= r < 6 && diag_down4(q, c, r));
                }
            }
            assert(wins(q));
        }
        if wins(q) {
            // The winning window runs through the landing square: otherwise
            // the opponent had already won.
            if exists|c0: int, r0: int| 0 <= c0 < 7 && 0 <= r0 < 3 && #[trigger] vert4(q, c0, r0) {
                let (c0, r0) = choose|c0: int, r0: int|
                    0 <= c0 < 7 && 0 <= r0 < 3 && #[trigger] vert4(q, c0, r0);
                if c0 == c && r0 <= r <= r0 + 3 {
                    // Nothing sits above the landing square, so it tops the
                    // window.
                    if r < r0 + 3 {
                        assert(cell(p, c, r0 + 3));
                        assert(cell(self.occupied, c, r0 + 3)) by {
                            lemma_bit_ops(self.occupied, !self.player, (8 * c + r0 + 3) as u64);
                        }
                        self.lemma_nothing_above_empty(c, r, r0 + 3);
                    }
                    assert(vert_top_spot(p, c, r));
                } else {
                    assert(vert4(p, c0, r0));
                    assert(wins(p));
                }
            } else if exists|c0: int, r0: int|
                0 <= c0 < 4 && 0 <= r0 < 6 && #[trigger] horiz4(q, c0, r0) {
                let (c0, r0) = choose|c0: int, r0: int|
                    0 <= c0 < 4 && 0 <= r0 < 6 && #[trigger] horiz4(q, c0, r0);
                if r0 == r && c0 <= c <= c0 + 3 {
                    assert(horiz_spot(p, c, r));
                } else {
                    assert(horiz4(p, c0, r0));
                    assert(wins(p));
                }
            } else if exists|c0: int, r0: int|
                0 <= c0 < 4 && 0 <= r0 < 3 && #[trigger] diag_up4(q, c0, r0) {
                let (c0, r0) = choose|c0: int, r0: int|
                    0 <= c0 < 4 && 0 <= r0 < 3 && #[trigger] diag_up4(q, c0, r0);
                if c0 <= c <= c0 + 3 && r - c == r0 - c0 {
                    assert(diag_up_spot(p, c, r));
                } else {
                    assert(diag_up4(p, c0, r0));
                    assert(wins(p));
                }
            } else {
                let (c0, r0) = choose|c0: int, r0: int|
                    0 <= c0 < 4 && 3 <= r0 < 6 && #[trigger] diag_down4(q, c0, r0);
                if c0 <= c <= c0 + 3 && r + c == r0 + c0 {
                    assert(diag_down_spot(p, c, r));
                } else {
                    assert(diag_down4(p, c0, r0));
                    assert(wins(p));
                }
            }
            assert(cell(wspots(p), c, r));
        }
    }

    /// What the forced replies are: exactly the legal landing squares whose
    /// occupation would complete an opponent four-in-a-row.
    pub proof fn lemma_forced_meaning(self, c: int, r: int)
        requires
            self.bits_ok(),
            self.gravity_ok(),
            !wins(self.opp_spec()),
            in_board(c, r),
        ensures
            cell(self.forced_spec(), c, r) == (self.landing(c, r) && wins(
                self.opp_spec() | (1u64 << ((8 * c + r) as u64)),
            )),
    {
        let i = (8 * c + r) as u64;
        lemma_bit_ops(wspots(self.opp_spec()), self.legal_spec(), i);
        self.lemma_legal_cells();
        assert(cell(self.legal_spec(), c, r) == self.landing(c, r));
        assert(cell(self.forced_spec(), c, r) == (cell(wspots(self.opp_spec()), c, r) && cell(
            self.legal_spec(),
            c,
            r,
        )));
        if self.landing(c, r) {
            self.lemma_spot_completes(c, r);
        }
    }
}

/// The shifted copies of a three-chain word fall back inside the stones.
proof fn lemma_chain_sub(p: u64, o: u64)
    by (bit_vector)
    requires
        1 <= o,
        o <= 9,
    ensures
        (chain3_word(p, o) | (chain3_word(p, o) << o) | (chain3_word(p, o) >> o)) & p == (
        chain3_word(p, o) | (chain3_word(p, o) << o) | (chain3_word(p, o) >> o)),
{
}

/// The board has exactly 42 playable squares.
pub proof fn lemma_playable_count()
    ensures
        popcnt(BitBoard::PLAYABLE_FIELDS) == 42,
{
    reveal_with_fuel(popcnt, 60);
}

impl BitBoard {
    /// The two sides' stones partition the occupancy, which fits the board.
    pub proof fn lemma_stone_counts(self)
        requires
            self.bits_ok(),
        ensures
            popcnt(self.player) + popcnt(self.opp_spec()) == popcnt(self.occupied),
            popcnt(self.occupied) <= 42,
            popcnt(self.player) <= popcnt(self.occupied),
    {
        lemma_opp_bits(self.player, self.occupied);
        lemma_popcnt_disjoint(self.player, self.opp_spec());
        lemma_playable_count();
        lemma_popcnt_subset(self.occupied, BitBoard::PLAYABLE_FIELDS);
    }

    /// The material heuristic of a well-formed position stays far inside the
    /// mate sentinels.
    pub proof fn lemma_heuristic2_range(self)
        requires
            self.wf(),
        ensures
            -84 <= self.heuristic2_spec() <= 84,
    {
        self.lemma_stone_counts();
        let p = self.player;
        let o = self.opp_spec();
        lemma_material_bound(p, o);
        lemma_material_bound(o, p);
        // Each side holds at most 21 stones.
        assert(popcnt(p) <= 21 && popcnt(o) <= 21);
    }

    /// Swapping the side to move negates all three heuristics.
    pub proof fn lemma_heuristic_symmetry(self)
        requires
            self.bits_ok(),
        ensures
            self.swapped_spec().heuristic2_spec() == -self.heuristic2_spec(),
            self.swapped_spec().heuristic3_spec() == -self.heuristic3_spec(),
            self.swapped_spec().heuristic_spec() == -self.heuristic_spec(),
    {
        lemma_swap_bits(self.player, self.occupied);
        assert(self.swapped_spec().opp_spec() == self.player);
        assert(self.swapped_spec().player == self.opp_spec());
    }

    /// A board with fewer than 42 stones has a legal move in some column.
    pub proof fn lemma_board_not_full(self)
        requires
            self.bits_ok(),
            self.gravity_ok(),
            popcnt(self.occupied) < 42,
        ensures
            exists|c: int| 0 <= c < 7 && self.col_move_spec(c) != 0,
    {
        lemma_playable_count();
        let occ = self.occupied;
        let free = BitBoard::PLAYABLE_FIELDS & !occ;
        lemma_popcnt_split(BitBoard::PLAYABLE_FIELDS, occ);
        assert(BitBoard::PLAYABLE_FIELDS & occ == occ) by {
            assert forall|j: u64| j < 64 implies nth(BitBoard::PLAYABLE_FIELDS & occ, j) == nth(
                occ,
                j,
            ) by {
                lemma_bit_ops(BitBoard::PLAYABLE_FIELDS, occ, j);
                lemma_bit_ops(occ, BitBoard::PLAYABLE_FIELDS, j);
            }
            lemma_bit_ext(BitBoard::PLAYABLE_FIELDS & occ, occ);
        }
        assert(popcnt(free) > 0);
        if free == 0 {
            assert(popcnt(free) == 0);
        }
        lemma_nonzero_has_bit(free);
        let i = choose|i: u64| i < 64 && nth(free, i);
        lemma_bit_ops(BitBoard::PLAYABLE_FIELDS, !occ, i);
        lemma_bit_ops(occ, occ, i);
        lemma_const_bits(i);
        let c = (i / 8) as int;
        let r = (i % 8) as int;
        assert(i == 8 * c + r);
        assert(!cell(occ, c, r));
        if cell(occ, c, 5) {
            self.lemma_gravity_down(c, r, 5);
        }
        self.lemma_col_move(c);
    }
}

/// One side's covered-stone count is at most four per stone.
pub proof fn lemma_material_bound(p: u64, o: u64)
    ensures
        0 <= material_spec(p, o) <= 4 * popcnt(p),
{
    let space = BitBoard::PLAYABLE_FIELDS & !o;
    lemma_and_subset(p, window_cover(space, 1));
    lemma_and_subset(p, window_cover(space, 8));
    lemma_and_subset(p, window_cover(space, 9));
    lemma_and_subset(p, window_cover(space, 7));
    lemma_popcnt_subset(p & window_cover(space, 1), p);
    lemma_popcnt_subset(p & window_cover(space, 8), p);
    lemma_popcnt_subset(p & window_cover(space, 9), p);
    lemma_popcnt_subset(p & window_cover(space, 7), p);
}

/// Why a board text was rejected: a cleaned length other than 42, or a
/// character that is not `p`, `c` or `n`.
#[derive(Eq, PartialEq, Debug)]
pub enum ParseError {
    InvalidLength(usize),
    InvalidChar(char),
}

/// A whitespace character (the Unicode white-space set), ignored in board
/// texts.
pub open spec fn is_ws(c: char) -> bool {
    ||| c as u32 == 0x20
    ||| (9 <= c as u32 && c as u32 <= 13)
    ||| c as u32 == 0x85
    ||| c as u32 == 0xA0
    ||| c as u32 == 0x1680
    ||| (0x2000 <= c as u32 && c as u32 <= 0x200A)
    ||| c as u32 == 0x2028
    ||| c as u32 == 0x2029
    ||| c as u32 == 0x202F
    ||| c as u32 == 0x205F
    ||| c as u32 == 0x3000
}

/// A stone of the side to move, of the opponent, or an empty square.
pub open spec fn is_cell_char(c: char) -> bool {
    c == 'p' || c == 'c' || c == 'n'
}

/// The text with its whitespace removed.
pub open spec fn clean(s: Seq<char>) -> Seq<char>
    decreases s.len(),
{
    if s.len() == 0 {
        Seq::empty()
    } else {
        let rest = clean(s.drop_last());
        if is_ws(s.last()) {
            rest
        } else {
            rest.push(s.last())
        }
    }
}

/// Every character encodes to at least one byte, so a text never holds more
/// characters than bytes.
proof fn lemma_chars_le_bytes(chars: Seq<char>)
    ensures
        chars.len() <= vstd::utf8::encode_utf8(chars).len(),
    decreases chars.len(),
{
    if chars.len() > 0 {
        lemma_chars_le_bytes(chars.drop_first());
        assert(vstd::utf8::encode_scalar(chars[0] as u32).len() >= 1);
    }
}

/// Whether `c` is whitespace.
fn ws_char(c: char) -> (r: bool)
    ensures
        r == is_ws(c),
{
    let u = c as u32;
    u == 0x20 || (9 <= u && u <= 13) || u == 0x85 || u == 0xA0 || u == 0x1680 || (0x2000 <= u && u
        <= 0x200A) || u == 0x2028 || u == 0x2029 || u == 0x202F || u == 0x205F || u == 0x3000
}

/// Cleaning distributes over concatenation.
pub proof fn lemma_clean_concat(a: Seq<char>, b: Seq<char>)
    ensures
        clean(a + b) == clean(a) + clean(b),
    decreases b.len(),
{
    if b.len() == 0 {
        assert(a + b =~= a);
        assert(clean(a) + clean(b) =~= clean(a));
    } else {
        assert((a + b).drop_last() =~= a + b.drop_last());
        lemma_clean_concat(a, b.drop_last());
        if is_ws(b.last()) {
            assert(clean(b) == clean(b.drop_last()));
        } else {
            assert(clean(a) + clean(b.drop_last()).push(b.last()) =~= (clean(a) + clean(
                b.drop_last(),
            )).push(b.last()));
        }
    }
}

/// Where the `k`-th cleaned character sits on the board: the text reads the
/// top row first, left to right, row by row downward.
pub open spec fn text_bit(k: int) -> u64 {
    (8 * (k % 7) + 5 - k / 7) as u64
}

/// Distinct text positions name distinct squares.
pub proof fn lemma_text_bit_inj(k1: int, k2: int)
    requires
        0 <= k1 < 42,
        0 <= k2 < 42,
        k1 != k2,
    ensures
        text_bit(k1) != text_bit(k2),
{
    assert(k1 == 7 * (k1 / 7) + k1 % 7);
    assert(k2 == 7 * (k2 / 7) + k2 % 7);
    if text_bit(k1) == text_bit(k2) {
        assert(8 * (k1 % 7) + 5 - k1 / 7 == 8 * (k2 % 7) + 5 - k2 / 7);
    }
}

impl BitBoard {
    /// Reads a board from text: 42 squares as `p` (side to move), `c`
    /// (opponent) or `n` (empty), read top row first, with any whitespace
    /// ignored.  Gravity is the caller's responsibility for hand-written
    /// fixtures; it is not revalidated here.
    pub fn from_string(input: &str) -> (r: Result<BitBoard, ParseError>)
        ensures
            r is Ok <==> (clean(input@).len() == 42 && (forall|k: int|
                0 <= k < 42 ==> is_cell_char(#[trigger] clean(input@)[k]))),
            r is Ok ==> {
                let b = r->Ok_0;
                let t = clean(input@);
                &&& b.bits_ok()
                &&& forall|k: int|
                    0 <= k < 42 ==> nth(b.player, #[trigger] text_bit(k)) == (t[k] == 'p')
                &&& forall|k: int|
                    0 <= k < 42 ==> nth(b.occupied, #[trigger] text_bit(k)) == (t[k] == 'p' || t[k]
                        == 'c')
            },
            r matches Err(ParseError::InvalidLength(n)) ==> n == clean(input@).len() && n != 42,
            r matches Err(ParseError::InvalidChar(ch)) ==> clean(input@).len() == 42
                && !is_cell_char(ch) && (exists|k: int|
                0 <= k < 42 && #[trigger] clean(input@)[k] == ch && (forall|j: int|
                    0 <= j < k ==> is_cell_char(#[trigger] clean(input@)[j]))),
    {
        let ghost s = input@;
        let ghost t = clean(s);
        // The character count fits a machine word: no character encodes to
        // fewer bytes than one.
        let bytes = input.as_bytes();
        proof {
            vstd::slice::axiom_spec_len(bytes);
            lemma_chars_le_bytes(s);
        }

        // First pass: the board text must hold exactly 42 squares.
        let mut chars = input.chars();
        proof {
            vstd::string::axiom_spec_iter(input);
        }
        let mut count: usize = 0;
        let ghost mut i: int = 0;
        loop
            invariant
                0 <= i <= s.len(),
                s == input@,
                s.len() <= usize::MAX,
                chars.remaining() == s.skip(i),
                count == clean(s.take(i)).len(),
                count <= i,
            ensures
                count == clean(s).len(),
            decreases s.len() - i,
        {
            match chars.next() {
                None => {
                    proof {
                        assert(s.skip(i).len() == 0);
                        assert(s.take(i) =~= s);
                    }
                    break ;
                },
                Some(c) => {
                    proof {
                        assert(s.take(i + 1).drop_last() =~= s.take(i));
                        assert(s.take(i + 1).last() == c);
                        assert(chars.remaining() =~= s.skip(i + 1));
                    }
                    if !ws_char(c) {
                        count = count + 1;
                    }
                    proof {
                        i = i + 1;
                    }
                },
            }
        }
        if count != 42 {
            return Err(ParseError::InvalidLength(count));
        }

        // Second pass: place each square's stone.
        let mut chars = input.chars();
        proof {
            vstd::string::axiom_spec_iter(input);
        }
        let mut player: u64 = 0;
        let mut occupied: u64 = 0;
        let mut cnt: usize = 0;
        let ghost mut i: int = 0;
        proof {
            assert forall|j: u64| j < 64 implies !nth(0u64, j) by {
                lemma_bit_zero(0u64, j);
            }
        }
        loop
            invariant
                0 <= i <= s.len(),
                s == input@,
                t == clean(s),
                t.len() == 42,
                chars.remaining() == s.skip(i),
                cnt == clean(s.take(i)).len(),
                cnt <= 42,
                clean(s.take(i)) == t.take(cnt as int),
                forall|j: int| 0 <= j < cnt ==> is_cell_char(#[trigger] t[j]),
                forall|k: int|
                    0 <= k < cnt ==> nth(player, #[trigger] text_bit(k)) == (t[k] == 'p'),
                forall|k: int|
                    0 <= k < cnt ==> nth(occupied, #[trigger] text_bit(k)) == (t[k] == 'p' || t[k]
                        == 'c'),
                forall|j: u64|
                    j < 64 && #[trigger] nth(occupied, j) ==> exists|k: int|
                        0 <= k < cnt && j == text_bit(k),
                forall|j: u64|
                    j < 64 && #[trigger] nth(player, j) ==> exists|k: int|
                        0 <= k < cnt && j == text_bit(k),
            ensures
                cnt == 42,
            decreases s.len() - i,
        {
            match chars.next() {
                None => {
                    proof {
                        assert(s.skip(i).len() == 0);
                        assert(s.take(i) =~= s);
                    }
                    break ;
                },
                Some(c) => {
                    proof {
                        assert(s.take(i + 1).drop_last() =~= s.take(i));
                        assert(s.take(i + 1).last() == c);
                        assert(chars.remaining() =~= s.skip(i + 1));
                        assert(s.take(i + 1) + s.skip(i + 1) =~= s);
                        lemma_clean_concat(s.take(i + 1), s.skip(i + 1));
                    }
                    if !ws_char(c) {
                        proof {
                            // The cleaned text holds this character at `cnt`.
                            assert(clean(s.take(i + 1)) == t.take(cnt as int).push(c));
                            assert(t.len() >= cnt + 1);
                            assert(t[cnt as int] == c);
                            assert(t.take(cnt as int + 1) =~= t.take(cnt as int).push(c));
                        }
                        if c == 'p' || c == 'c' || c == 'n' {
                            let col = (cnt as u64) % 7;
                            let row = 5 - (cnt as u64) / 7;
                            let bit = 8 * col + row;
                            let ghost old_player = player;
                            let ghost old_occupied = occupied;
                            proof {
                                assert(bit == text_bit(cnt as int));
                                assert(bit < 56 && bit % 8 < 6);
                            }
                            if c == 'p' {
                                player = player | (1u64 << bit);
                                occupied = occupied | (1u64 << bit);
                            } else if c == 'c' {
                                occupied = occupied | (1u64 << bit);
                            }
                            proof {
                                assert forall|j: u64| j < 64 implies nth(player, j) == (nth(
                                    old_player,
                                    j,
                                ) || (c == 'p' && j == bit)) && nth(occupied, j) == (nth(
                                    old_occupied,
                                    j,
                                ) || ((c == 'p' || c == 'c') && j == bit)) by {
                                    lemma_bit_ops(old_player, 1u64 << bit, j);
                                    lemma_bit_ops(old_occupied, 1u64 << bit, j);
                                    lemma_single_bit(bit, j);
                                }
                                assert forall|k: int| 0 <= k < cnt + 1 implies nth(
                                    player,
                                    #[trigger] text_bit(k),
                                ) == (t[k] == 'p') && nth(occupied, text_bit(k)) == (t[k] == 'p'
                                    || t[k] == 'c') by {
                                    assert(text_bit(k) < 64);
                                    if k < cnt {
                                        lemma_text_bit_inj(k, cnt as int);
                                    }
                                }
                            }
                            cnt = cnt + 1;
                        } else {
                            proof {
                                assert(0 <= cnt < 42 && clean(input@)[cnt as int] == c
                                    && !is_cell_char(c));
                                assert(forall|j: int|
                                    0 <= j < cnt ==> is_cell_char(#[trigger] clean(input@)[j]));
                            }
                            return Err(ParseError::InvalidChar(c));
                        }
                    }
                    proof {
                        i = i + 1;
                    }
                },
            }
        }
        proof {
            // Everything set is on a board square, so the padding is clear.
            assert forall|j: u64| j < 64 implies nth(player & occupied, j) == nth(player, j) && nth(
                occupied & BitBoard::PLAYABLE_FIELDS,
                j,
            ) == nth(occupied, j) by {
                lemma_bit_ops(player, occupied, j);
                lemma_bit_ops(occupied, BitBoard::PLAYABLE_FIELDS, j);
                lemma_const_bits(j);
                if nth(player, j) {
                    let k = choose|k: int| 0 <= k < 42 && j == text_bit(k);
                    assert(nth(occupied, text_bit(k)) == (t[k] == 'p' || t[k] == 'c'));
                }
                if nth(occupied, j) {
                    let k = choose|k: int| 0 <= k < 42 && j == text_bit(k);
                    assert(j == text_bit(k) && j < 56 && j % 8 < 6);
                }
            }
            lemma_bit_ext(player & occupied, player);
            lemma_bit_ext(occupied & BitBoard::PLAYABLE_FIELDS, occupied);
        }
        Ok(BitBoard { player, occupied })
    }
}

/// A typesafe wrapper around a word that holds a single move.
pub struct Move {
    move_repr: u64,
}

impl Move {
    /// The move's word.
    pub closed spec fn repr_spec(self) -> u64 {
        self.move_repr
    }

    /// The move's word.
    pub fn get_move_repr(&self) -> (r: u64)
        ensures
            r == self.repr_spec(),
    {
        self.move_repr
    }

    /// Wraps a move word.
    pub fn new(move_repr: u64) -> (r: Move)
        ensures
            r.repr_spec() == move_repr,
    {
        Move { move_repr }
    }
}

/// A square named by its index in column-major order: index `6*c + r` is
/// column `c`, row `r`.
pub struct BoardField {
    index: u8,
}

impl BoardField {
    /// The square's index.
    pub closed spec fn index_spec(self) -> u8 {
        self.index
    }

    /// Names the square with the given index.
    pub fn new(index: u8) -> (r: BoardField)
        requires
            index < 42,
        ensures
            r.index_spec() == index,
    {
        BoardField { index }
    }

    /// Where the square's bit sits in the board words.
    pub fn get_bit_pos(&self) -> (r: u8)
        requires
            self.index_spec() < 42,
        ensures
            r == 8 * (self.index_spec() / 6) + self.index_spec() % 6,
            r < 56,
    {
        let row = self.index % 6;
        let column = self.index / 6;
        let bit_pos = column * 8 + row;
        bit_pos
    }

    /// The square's index.
    pub fn get_index(&self) -> (r: u8)
        ensures
            r == self.index_spec(),
    {
        self.index
    }
}

impl BitBoard {
    /// Whether any stone sits on the given square.
    pub fn is_occupied_at_field(&self, field: &BoardField) -> (r: bool)
        requires
            field.index_spec() < 42,
        ensures
            r == nth(self.occupied, (8 * (field.index_spec() / 6) + field.index_spec() % 6) as u64),
    {
        self.occupied & (1u64 << field.get_bit_pos()) > 0
    }

    /// Whether a stone of the side to move sits on the given square.
    pub fn is_occupied_by_player_at_field(&self, field: &BoardField) -> (r: bool)
        requires
            field.index_spec() < 42,
        ensures
            r == nth(self.player, (8 * (field.index_spec() / 6) + field.index_spec() % 6) as u64),
    {
        self.player & (1u64 << field.get_bit_pos()) > 0
    }

    #[inline]
    fn coordinate_to_field(x: u8, y: u8) -> (r: u64)
        requires
            x < 8,
            y < 8,
        ensures
            r == 1u64 << ((8 * x + y) as u64),
    {
        let pos = x * 8 + y;
        1u64 << pos
    }

    /// What sits on the square in column `x`, row `y`.
    pub fn get_at(&self, x: u8, y: u8) -> (r: Option<FieldType>)
        requires
            x < 8,
            y < 8,
        ensures
            r == (if cell(self.player, x as int, y as int) {
                Some(FieldType::Player)
            } else if cell(self.occupied, x as int, y as int) {
                Some(FieldType::Opponent)
            } else {
                None::<FieldType>
            }),
    {
        let field = BitBoard::coordinate_to_field(x, y);
        if (self.player & field) > 0 {
            return Some(FieldType::Player);
        } else if (self.occupied & field) > 0 {
            return Some(FieldType::Opponent);
        }
        None
    }

    /// Places a stone (or clears the square) at `to_play` without applying
    /// gravity or handing the turn over.
    pub fn set_at(&mut self, to_play: u64, field: Option<FieldType>)
        ensures
            *final(self) == (match field {
                None => BitBoard {
                    player: old(self).player & !to_play,
                    occupied: old(self).occupied & !to_play,
                },
                Some(FieldType::Player) => BitBoard {
                    player: old(self).player | to_play,
                    occupied: old(self).occupied | to_play,
                },
                Some(FieldType::Opponent) => BitBoard {
                    player: old(self).player,
                    occupied: old(self).occupied | to_play,
                },
            }),
    {
        match field {
            None => {
                // Clear the square for both sides.
                self.player = self.player & (!to_play);
                self.occupied = self.occupied & (!to_play);
            },
            Some(FieldType::Player) => {
                self.player = self.player | to_play;
                self.occupied = self.occupied | to_play;
            },
            Some(FieldType::Opponent) => {
                self.occupied = self.occupied | to_play;
            },
        }
    }

    /// Places a stone (or clears the square) in column `x`, row `y`.
    pub fn set_at_coordinate(&mut self, x: u8, y: u8, field: Option<FieldType>)
        requires
            x < 8,
            y < 8,
        ensures
            *final(self) == (match field {
                None => BitBoard {
                    player: old(self).player & !(1u64 << ((8 * x + y) as u64)),
                    occupied: old(self).occupied & !(1u64 << ((8 * x + y) as u64)),
                },
                Some(FieldType::Player) => BitBoard {
                    player: old(self).player | (1u64 << ((8 * x + y) as u64)),
                    occupied: old(self).occupied | (1u64 << ((8 * x + y) as u64)),
                },
                Some(FieldType::Opponent) => BitBoard {
                    player: old(self).player,
                    occupied: old(self).occupied | (1u64 << ((8 * x + y) as u64)),
                },
            }),
    {
        let to_play = BitBoard::coordinate_to_field(x, y);
        self.set_at(to_play, field);
    }
}

/// Decodes a move word to the column and row of its lowest set bit; `None`
/// for the zero word.
pub fn move_to_column(mov: u64) -> (r: Option<(u32, u32)>)
    ensures
        r is None <==> mov == 0,
        mov != 0 ==> (r matches Some(p) && p.0 == vstd::std_specs::bits::u64_trailing_zeros(mov) / 8
            && p.1 == vstd::std_specs::bits::u64_trailing_zeros(mov) % 8),
        mov != 0 && popcnt(mov) == 1 ==> (r matches Some(p) && p.0 < 8 && p.1 < 8 && mov == 1u64
            << ((8 * p.0 + p.1) as u64)),
{
    if mov == 0 {
        return None;
    }
    proof {
        vstd::std_specs::bits::axiom_u64_trailing_zeros(mov);
    }
    let tz = mov.trailing_zeros();
    proof {
        let tzs = vstd::std_specs::bits::u64_trailing_zeros(mov);
        assert(mov & (1u64 << tzs) != 0) by (bit_vector)
            requires
                tzs < 64 && (mov >> tzs) & 1u64 == 1u64,
        ;
        if popcnt(mov) == 1 {
            lemma_popcnt_one(mov, tzs as u64);
        }
    }
    Some((tz / 8, tz % 8))
}

impl BitBoard {
    /// After a legal move from a live position, the two sides never both
    /// hold a four-in-a-row: the side that received the turn did not move,
    /// so it holds one only if it already did.  Along a legal game in which
    /// play stops at the first win, no reachable position shows two wins.
    pub proof fn lemma_win_loss_exclusive(self, m: u64)
        requires
            self.bits_ok(),
            self.gravity_ok(),
            !wins(self.opp_spec()),
            m != 0,
            popcnt(m) == 1,
            m & self.legal_spec() == m,
        ensures
            !wins(self.play_spec(m).player),
            !(wins(self.play_spec(m).player) && wins(self.play_spec(m).opp_spec())),
    {
        self.lemma_play_wf(m);
    }

    /// A move wins exactly when, after playing it, the side that just moved
    /// (now the opponent) holds a four-in-a-row.
    pub proof fn lemma_winning_move_iff(self, m: u64)
        requires
            self.bits_ok(),
            self.gravity_ok(),
            m != 0,
            popcnt(m) == 1,
            m & self.legal_spec() == m,
        ensures
            wins(self.player | m) == wins(self.play_spec(m).opp_spec()),
    {
        self.lemma_play_wf(m);
    }
}

/// How many of the first `c` columns are full.
pub open spec fn full_cols(b: BitBoard, c: int) -> int
    decreases c,
{
    if c <= 0 {
        0
    } else {
        full_cols(b, c - 1) + if cell(b.occupied, c - 1, 5) {
            1int
        } else {
            0int
        }
    }
}

/// The word of all bits below column `c`.
pub open spec fn low_cols_mask(c: int) -> u64 {
    !(0xFFFF_FFFF_FFFF_FFFFu64 << ((8 * c) as u64))
}

proof fn lemma_lowmask_bits(c: u64, i: u64)
    by (bit_vector)
    requires
        c <= 7,
        i < 64,
    ensures
        nth(!(0xFFFF_FFFF_FFFF_FFFFu64 << (8 * c)), i) == (i < 8 * c),
{
}

proof fn lemma_legal_count_rec(b: BitBoard, c: int)
    requires
        b.bits_ok(),
        b.gravity_ok(),
        0 <= c <= 7,
    ensures
        popcnt(b.legal_spec() & low_cols_mask(c)) == c - full_cols(b, c),
    decreases c,
{
    let legal = b.legal_spec();
    b.lemma_legal_cells();
    let mhi = low_cols_mask(c);
    assert forall|j: u64| j < 64 implies !nth(0u64, j) by {
        lemma_bit_zero(0u64, j);
    }
    if c == 0 {
        assert forall|j: u64| j < 64 implies !nth(legal & mhi, j) by {
            lemma_bit_ops(legal, mhi, j);
            lemma_lowmask_bits(0, j);
        }
        lemma_bit_ext(legal & mhi, 0);
    } else {
        lemma_legal_count_rec(b, c - 1);
        let mlo = low_cols_mask(c - 1);
        let colm = b.col_move_spec(c - 1);
        let colmask = BitBoard::FIRST_COLUMN << ((8 * (c - 1)) as u64);
        b.lemma_col_move(c - 1);
        assert forall|j: u64| j < 64 implies nth(legal & mhi, j) == nth((legal & mlo) | colm, j)
            && !nth((legal & mlo) & colm, j) by {
            lemma_bit_ops(legal, mhi, j);
            lemma_bit_ops(legal, mlo, j);
            lemma_bit_ops(legal & mlo, colm, j);
            lemma_bit_ops(legal, colmask, j);
            lemma_lowmask_bits(c as u64, j);
            lemma_lowmask_bits((c - 1) as u64, j);
            lemma_bit_shift(BitBoard::FIRST_COLUMN, (8 * (c - 1)) as u64, j);
            if j >= 8 * (c - 1) {
                lemma_const_bits((j - 8 * (c - 1)) as u64);
            }
        }
        assert forall|j: u64| j < 64 implies nth((legal & mlo) | colm, j) == (nth(legal & mlo, j)
            || nth(colm, j)) by {
            lemma_bit_ops(legal & mlo, colm, j);
        }
        assert forall|j: u64| j < 64 implies nth((legal & mlo) & colm, j) == nth(0u64, j) by {
            lemma_bit_zero(0u64, j);
            lemma_bit_ops(legal & mlo, colm, j);
            lemma_bit_ops(legal, mlo, j);
            lemma_bit_ops(legal, colmask, j);
            lemma_lowmask_bits((c - 1) as u64, j);
            lemma_bit_shift(BitBoard::FIRST_COLUMN, (8 * (c - 1)) as u64, j);
            if j >= 8 * (c - 1) {
                lemma_const_bits((j - 8 * (c - 1)) as u64);
            }
        }
        lemma_bit_ext(legal & mhi, (legal & mlo) | colm);
        lemma_bit_ext((legal & mlo) & colm, 0);
        lemma_popcnt_disjoint(legal & mlo, colm);
        if colm == 0 {
            assert(popcnt(colm) == 0);
        }
    }
}

impl BitBoard {
    /// The legal-move word holds one bit for each column that is not full:
    /// its popcount is seven minus the number of full columns.
    pub proof fn lemma_legal_count(self)
        requires
            self.bits_ok(),
            self.gravity_ok(),
        ensures
            popcnt(self.legal_spec()) == 7 - full_cols(self, 7),
    {
        let legal = self.legal_spec();
        self.lemma_legal_cells();
        lemma_legal_count_rec(self, 7);
        let mhi = low_cols_mask(7);
        assert forall|j: u64| j < 64 implies nth(legal & mhi, j) == nth(legal, j) by {
            lemma_bit_ops(legal, mhi, j);
            lemma_lowmask_bits(7, j);
        }
        lemma_bit_ext(legal & mhi, legal);
    }
}

impl Default for BitBoard {
    /// The empty board.
    fn default() -> (r: BitBoard)
        ensures
            r.player == 0,
            r.occupied == 0,
            r.wf(),
    {
        BitBoard::empty()
    }
}

} // verus!
