use c4solver::board::move_to_column;
use c4solver::board::BitBoard;
use c4solver::board::BoardField;
use c4solver::board::FieldType;
use c4solver::board::Move;
use c4solver::board::ParseError;

const MID: &str = "nnnpnnn
            nnncpnn
            nnnpcnn
            nnncpnn
            npnpcnn
            ncncpcn";

#[test]
fn legal_moves_stay_playable_and_count_open_columns() {
    // Column 3 is full: six columns stay open, one landing square each.
    let bits = BitBoard::from_string(MID).unwrap();
    let legal = bits.all_possible_moves();
    assert_eq!(legal & BitBoard::PLAYABLE_FIELDS, legal);
    assert_eq!(legal.count_ones(), 7 - 1);
    let empty = BitBoard::empty();
    let legal = empty.all_possible_moves();
    assert_eq!(legal & BitBoard::PLAYABLE_FIELDS, legal);
    assert_eq!(legal.count_ones(), 7);
}

#[test]
fn play_updates_both_words_and_swaps_sides() {
    let bits = BitBoard::from_string(MID).unwrap();
    let legal = bits.all_possible_moves();
    for col in 0..7u64 {
        let m = BitBoard::move_in_row(legal, col);
        if m == 0 {
            continue;
        }
        let after = bits.play_field(m);
        assert_eq!(after.occupied, bits.occupied | m);
        assert_eq!(after.player, bits.occupied ^ bits.player);
    }
}

#[test]
fn win_and_loss_are_exclusive_on_reached_positions() {
    // Playing out a game from the empty board, stopping at the first win:
    // no reached position shows a four-in-a-row for both sides.
    let mut board = BitBoard::empty();
    let columns = [3u64, 3, 2, 4, 2, 2, 4, 4, 3, 5, 0, 1, 6, 0, 1, 5];
    for col in columns {
        assert!(!(board.has_won() && board.has_lost()));
        if board.has_lost() {
            break;
        }
        let m = BitBoard::move_in_row(board.all_possible_moves(), col);
        if m == 0 {
            continue;
        }
        board = board.play_field(m);
    }
    assert!(!(board.has_won() && board.has_lost()));
}

#[test]
fn winning_move_matches_loss_after_playing_it() {
    let fixtures = [
        MID,
        "nnnnnnn
            nnnnnnn
            nnnnnnn
            nnnnnnn
            cccnnnn
            pppnnnn",
        "nnnnnnn
            nnnnnnn
            nnnnnnn
            npnnnnn
            npcnnnn
            npccnnn",
    ];
    for text in fixtures {
        let bits = BitBoard::from_string(text).unwrap();
        let legal = bits.all_possible_moves();
        for col in 0..7u64 {
            let m = BitBoard::move_in_row(legal, col);
            if m == 0 {
                continue;
            }
            assert_eq!(bits.is_winning_move(m), bits.play_field(m).has_lost());
        }
    }
}

#[test]
fn heuristics_negate_under_side_swap() {
    let bits = BitBoard::from_string(MID).unwrap();
    let mut swapped = bits;
    swapped.switch_players();
    assert_eq!(swapped.heuristic_2(), -bits.heuristic_2());
    assert_eq!(swapped.heuristic3(), -bits.heuristic3());
    assert_eq!(swapped.heuristic(), -bits.heuristic());
}

#[test]
fn heuristic_values_on_a_middlegame_board() {
    let board = "nnnpnnn
            nnncpnn
            nnnpcnn
            nnncpnn
            npnpcnn
            ncpppcn";
    let bits = BitBoard::from_string(board).unwrap();
    assert_eq!(bits.heuristic_2(), 4);
    assert_eq!(bits.heuristic3(), 0);
    assert_eq!(bits.heuristic(), 3);
    let chains = BitBoard::num_chains(bits.player, bits.occupied);
    assert_eq!(chains.three, 1);
    assert_eq!(chains.two, 5);
    assert_eq!(BitBoard::score_new(bits.player, bits.occupied), 1);
}

#[test]
fn parse_all_empty_gives_empty_board() {
    let text = "nnnnnnnnnnnnnnnnnnnnnnnnnnnnnnnnnnnnnnnnnn";
    let parsed = BitBoard::from_string(text).unwrap();
    assert_eq!(parsed, BitBoard::empty());
    // Parsing the same text again is the identity on the empty position.
    assert_eq!(BitBoard::from_string(text).unwrap(), parsed);
}

#[test]
fn parse_rejects_wrong_length() {
    let text = "nnnnnnnnnnnnnnnnnnnnnnnnnnnnnnnnnnnnnnnnn";  // 41 squares
    assert_eq!(
        BitBoard::from_string(text),
        Err(ParseError::InvalidLength(41))
    );
    assert_eq!(BitBoard::from_string(""), Err(ParseError::InvalidLength(0)));
}

#[test]
fn parse_rejects_unknown_character() {
    let text = "nnnnnnnnnnnnnnnnnnnnnxnnnnnnnnnnnnnnnnnnnn";
    assert_eq!(
        BitBoard::from_string(text),
        Err(ParseError::InvalidChar('x'))
    );
}

#[test]
fn parse_ignores_any_whitespace() {
    let spread = "nnn nnnn\nnnnnnnn\r\nnnnnnnn\tnnnnnnn nnnnnnn nnpnnnn";
    let parsed = BitBoard::from_string(spread).unwrap();
    assert_eq!(parsed.player, 1u64 << 16);
    assert_eq!(parsed.occupied, 1u64 << 16);
    // Whitespace beyond ASCII is ignored too, as `split_whitespace` would.
    let unicode = "nnnnnnn\u{a0}nnnnnnn\u{2009}nnnnnnn\u{3000}nnnnnnn nnnnnnn nnpnnnn";
    assert_eq!(BitBoard::from_string(unicode).unwrap(), parsed);
}

#[test]
fn vertical_win_detection() {
    // Column 1 holds three stones of the side to move; the square above
    // them wins, and the side has won once it is played.
    let board = "nnnnnnn
            nnnnnnn
            nnnnnnn
            npnnnnn
            npcnnnn
            npccnnn";
    let bits = BitBoard::from_string(board).unwrap();
    let m = BitBoard::move_in_row(bits.all_possible_moves(), 1);
    assert_eq!(m, 1u64 << (8 * 1 + 3));
    assert!(bits.is_winning_move(m));
    let mut played = bits;
    played.set_at(m, Some(FieldType::Player));
    assert!(played.has_won());
}

#[test]
fn diagonal_up_right_win() {
    // Stones rising from column 1; the next diagonal square wins.
    let board = "nnnnnnn
            nnnnnnn
            nnnnnnn
            nnnpnnn
            nnpnnnn
            npnnnnn";
    let bits = BitBoard::from_string(board).unwrap();
    let m = 1u64 << (8 * 4 + 3);
    assert!(bits.is_winning_move(m));
}

#[test]
fn stones_and_squares_accessors() {
    let bits = BitBoard::from_string(MID).unwrap();
    assert_eq!(bits.number_of_stones(), 14);
    assert_eq!(bits.get_at(3, 5), Some(FieldType::Player));
    assert_eq!(bits.get_at(3, 4), Some(FieldType::Opponent));
    assert_eq!(bits.get_at(0, 0), None);
    assert_eq!(bits.get_player_bit_repr(), bits.player);
    assert_eq!(
        bits.get_opponent_bit_repr(),
        bits.occupied & !bits.player
    );
    assert!(bits.is_move_valid(0));
    assert!(!bits.is_move_valid(3));
    assert!(!bits.is_move_valid(7));
}

#[test]
fn set_at_clears_and_places() {
    let mut board = BitBoard::empty();
    board.set_at_coordinate(2, 0, Some(FieldType::Player));
    assert_eq!(board.get_at(2, 0), Some(FieldType::Player));
    board.set_at_coordinate(2, 1, Some(FieldType::Opponent));
    assert_eq!(board.get_at(2, 1), Some(FieldType::Opponent));
    board.set_at_coordinate(2, 0, None);
    assert_eq!(board.get_at(2, 0), None);
    assert_eq!(board.get_at(2, 1), Some(FieldType::Opponent));
}

#[test]
fn play_column_applies_gravity_for_either_side() {
    let board = BitBoard::empty();
    let one = board.play_column(3, FieldType::Player).unwrap();
    assert_eq!(one.get_at(3, 0), Some(FieldType::Player));
    let two = one.play_column(3, FieldType::Opponent).unwrap();
    assert_eq!(two.get_at(3, 1), Some(FieldType::Opponent));
    assert_eq!(two.get_at(3, 0), Some(FieldType::Player));
    assert!(board.play_column(7, FieldType::Player).is_none());
    let full = BitBoard::from_string(MID).unwrap();
    assert!(full.play_column(3, FieldType::Player).is_none());
}

#[test]
fn move_wrappers_and_field_indexing() {
    let m = Move::new(1u64 << 12);
    assert_eq!(m.get_move_repr(), 1u64 << 12);
    let f = BoardField::new(13);
    assert_eq!(f.get_index(), 13);
    assert_eq!(f.get_bit_pos(), 8 * 2 + 1);
    let bits = BitBoard::from_string(MID).unwrap();
    let f = BoardField::new(6 * 3 + 5);
    assert!(bits.is_occupied_at_field(&f));
    assert!(bits.is_occupied_by_player_at_field(&f));
    assert_eq!(move_to_column(0), None);
    assert_eq!(move_to_column(1u64 << 25), Some((3, 1)));
}

#[test]
fn forced_moves_are_the_threatened_landing_squares() {
    let board = "nnnnnnn
            nnnnnnn
            nnnnnnn
            nnnnnnn
            nnnnnpn
            ncccnpn";
    let bits = BitBoard::from_string(board).unwrap();
    let forced = bits.forced_moves();
    assert_eq!(forced, (1u64 << 0) | (1u64 << 32));
    let opposite = FieldType::Player.opposite();
    assert_eq!(opposite, FieldType::Opponent);
    assert_eq!(opposite.opposite(), FieldType::Player);
}
