#![allow(non_snake_case)]

use c4solver::board::BitBoard;

const EARLY_01: &str = "nnnnnnn
            nnnnnnn
            nnnnnnn
            nnnnnnn
            nnnnnnn
            nnnpnnn";

#[test]
fn test_winning_spots() {
    let board_01 = "nnnpnnn
            nnncpnn
            nnnpcnn
            nnncpnn
            npnpcnn
            ncpppcn";
    let player = BitBoard::from_string(EARLY_01).unwrap().player;
    let player2 = BitBoard::from_string(board_01).unwrap().player;
    assert_eq!(BitBoard::winning_spots(player), 0);
    assert_eq!(BitBoard::winning_spots(player2).count_ones(), 4)
}

#[test]
fn test_new_score_down_right() {
    let board_1 = "pnnpnnn
             npnnpnn
             nnpnnpn
             npnnpnn
             nnpnnpn
             nnnpnnp";
    let board_2 = "pnnnpnn
             npnnnpn
             nnpcnnp
             pnncpnn
             npnnnpn
             nnpnnnp";
    let board_1 = BitBoard::from_string(board_1).unwrap();
    let player = board_1.player;
    let occupied = board_1.occupied;
    assert_eq!(4, BitBoard::num_chains(player, occupied).three);
    let board_2 = BitBoard::from_string(board_2).unwrap();
    let player = board_2.player;
    let occupied = board_2.occupied;
    assert_eq!(0, BitBoard::num_chains(player, occupied).three);
    assert_eq!(0, BitBoard::num_chains(player, occupied).two);
}

#[test]
fn test_new_score_vertical() {
    let board_1 = "nnnnnnn
            nnnnnnn
            nnnnnnn
            pnnpnnn
            pnnpnnn
            pnnpnnn";
    let board_2 = "nnnnnnn
            nnnnnnn
            cnncnnn
            pnnpnnn
            pnnpnnn
            pnnpnnn";
    let board_1 = BitBoard::from_string(board_1).unwrap();
    let player = board_1.player;
    let occupied = board_1.occupied;
    assert_eq!(2, BitBoard::num_chains(player, occupied).three);
    let board_2 = BitBoard::from_string(board_2).unwrap();
    let player = board_2.player;
    let occupied = board_2.occupied;
    assert_eq!(0, BitBoard::num_chains(player, occupied).three);
}

#[test]
fn test_new_score_horizontal() {
    let board_1 = "pppnppp
            nnnnnnn
            nnnnnnn
            pppnppp
            nnnnnnn
            pppnppp";
    let board_2 = "pppcppp
            nnnnnnn
            nnnnnnn
            pppcppp
            nnnnnnn
            pppcppp";
    let board_1 = BitBoard::from_string(board_1).unwrap();
    let player = board_1.player;
    let occupied = board_1.occupied;
    assert_eq!(6, BitBoard::num_chains(player, occupied).three);
    let board_2 = BitBoard::from_string(board_2).unwrap();
    let player = board_2.player;
    let occupied = board_2.occupied;
    assert_eq!(0, BitBoard::num_chains(player, occupied).three);
}

#[test]
fn test_new_score_up_right() {
    let board_1 = "nnnnnnp
             nnnnnpn
             nnnnpnn
             nnpnnnn
             npnnnnn
             pnnnnnn";
    let board_2 = "nnpnnnp
             npnnnpn
             pnncpnn
             nnpcnnp
             npnnnpn
             pnnnpnn";
    let board_1 = BitBoard::from_string(board_1).unwrap();
    let player = board_1.player;
    let occupied = board_1.occupied;
    assert_eq!(2, BitBoard::num_chains(player, occupied).three);
    let board_2 = BitBoard::from_string(board_2).unwrap();
    let player = board_2.player;
    let occupied = board_2.occupied;
    assert_eq!(0, BitBoard::num_chains(player, occupied).three);
}

#[test]
fn BitBoard_test_new_score_down_right() {
    let board_1 = "pnnpnnn
             npnnpnn
             nnpnnpn
             npnnpnn
             nnpnnpn
             nnnpnnp";
    let board_2 = "pnnnpnn
             npnnnpn
             nnpcnnp
             pnncpnn
             npnnnpn
             nnpnnnp";
    let board_1 = BitBoard::from_string(board_1).unwrap();
    let player = board_1.player;
    let occupied = board_1.occupied;
    assert_eq!(4, BitBoard::score_new(player, occupied));
    let board_2 = BitBoard::from_string(board_2).unwrap();
    let player = board_2.player;
    let occupied = board_2.occupied;
    assert_eq!(0, BitBoard::score_new(player, occupied));
}

#[test]
fn BitBoard_test_new_score_vertical() {
    let board_1 = "nnnnnnn
            nnnnnnn
            nnnnnnn
            pnnpnnn
            pnnpnnn
            pnnpnnn";
    let board_2 = "nnnnnnn
            nnnnnnn
            cnncnnn
            pnnpnnn
            pnnpnnn
            pnnpnnn";
    let board_1 = BitBoard::from_string(board_1).unwrap();
    let player = board_1.player;
    let occupied = board_1.occupied;
    assert_eq!(2, BitBoard::score_new(player, occupied));
    let board_2 = BitBoard::from_string(board_2).unwrap();
    let player = board_2.player;
    let occupied = board_2.occupied;
    assert_eq!(0, BitBoard::score_new(player, occupied));
}

#[test]
fn BitBoard_test_new_score_horizontal() {
    let board_1 = "pppnppp
            nnnnnnn
            nnnnnnn
            pppnppp
            nnnnnnn
            pppnppp";
    let board_2 = "pppcppp
            nnnnnnn
            nnnnnnn
            pppcppp
            nnnnnnn
            pppcppp";
    let board_1 = BitBoard::from_string(board_1).unwrap();
    let player = board_1.player;
    let occupied = board_1.occupied;
    assert_eq!(6, BitBoard::score_new(player, occupied));
    let board_2 = BitBoard::from_string(board_2).unwrap();
    let player = board_2.player;
    let occupied = board_2.occupied;
    assert_eq!(0, BitBoard::score_new(player, occupied));
}

#[test]
fn BitBoard_test_new_score_up_right() {
    let board_1 = "nnnnnnp
             nnnnnpn
             nnnnpnn
             nnpnnnn
             npnnnnn
             pnnnnnn";
    let board_2 = "nnpnnnp
             npnnnpn
             pnncpnn
             nnpcnnp
             npnnnpn
             pnnnpnn";
    let board_1 = BitBoard::from_string(board_1).unwrap();
    let player = board_1.player;
    let occupied = board_1.occupied;
    assert_eq!(2, BitBoard::score_new(player, occupied));
    let board_2 = BitBoard::from_string(board_2).unwrap();
    let player = board_2.player;
    let occupied = board_2.occupied;
    assert_eq!(0, BitBoard::score_new(player, occupied));
}

#[test]
fn test_play_move() {
    let board = "nnnnnnn
            nnnnnnn
            nnnnnnn
            nnnnnnn
            nnnpcnn
            nnnpcnn";
    let board = BitBoard::from_string(board).unwrap();

    let to_play = "nnnnnnn
            nnnnnnn
            nnnnnnn
            nnnpnnn
            nnnnnnn
            nnnnnnn";
    let to_play = BitBoard::from_string(to_play).unwrap().player;

    let expected = "nnnnnnn
            nnnnnnn
            nnnnnnn
            nnncnnn
            nnncpnn
            nnncpnn";
    let expected = BitBoard::from_string(expected).unwrap();

    assert_eq!(board.play_field(to_play), expected);
}

#[test]
fn test_board_from_str() {
    let board_1 = "nnnnnnn
            nnnnnnn
            nnnnnnn
            nnnnnnn
            nnnnnnn
            nnnnnnn";

    let board_2 = "nnnnnnn
            nnnnnnn
            nnnnnnn
            nnnnnnn
            npnnnnn
            nnnnnnn";

    let bits = BitBoard::from_string(board_1).unwrap();
    assert_eq!(bits.player, 0);
    assert_eq!(bits.occupied, 0);

    let bits = BitBoard::from_string(board_2).unwrap();
    assert_eq!(bits.player, 1 << 9);
    assert_eq!(bits.occupied, 1 << 9);
}

#[test]
fn test_winning_move_vertical() {
    let board_1 = "nnnnnnn
            nnnnnnn
            nnnnnnn
            npnnnnn
            npnnnnn
            npnnnnn";
    let board_2 = "nnnnnnn
            nnnnnnn
            nnnnnnn
            npnnnnn
            ncnnnnn
            ncnnnnn";
    let bits_1 = BitBoard::from_string(board_1).unwrap();
    let bits_2 = BitBoard::from_string(board_2).unwrap();

    let player_move = "nnnnnnn
            nnnnnnn
            npnnnnn
            nnnnnnn
            nnnnnnn
            nnnnnnn";
    let position = BitBoard::from_string(player_move).unwrap().player;

    assert!(bits_1.is_winning_move(position));
    assert!(!bits_2.is_winning_move(position));
}

#[test]
fn test_winning_board_vertical() {
    let board_1 = "nnnnnnn
            nnnnnnn
            npnnnnn
            npnnnnn
            npnnnnn
            npnnnnn";
    let board_2 = "nnnnnnn
            nnnnnnn
            npnnnnn
            npnnnnn
            ncnnnnn
            ncnnnnn";
    let bits_1 = BitBoard::from_string(board_1).unwrap();
    let bits_2 = BitBoard::from_string(board_2).unwrap();

    assert!(bits_1.has_won());
    assert!(!bits_2.has_won());
}

#[test]
fn test_winning_move_horizontal() {
    let board_1 = "nnnnnnn
            nnnnnnn
            nnnnnnn
            nnnnnnn
            nnnnnnn
            pppnnnn";
    let board_2 = "nnnnnnn
            nnnnnnn
            nnnnnnn
            nnnnnnn
            nnnnnnn
            nnnnppp";
    let board_3 = "nnnnnnn
            nnnnnnn
            nnnnnnn
            nnnnnnn
            nnnnnnn
            nnnnppn";
    let bits_1 = BitBoard::from_string(board_1).unwrap();
    let bits_2 = BitBoard::from_string(board_2).unwrap();
    let bits_3 = BitBoard::from_string(board_3).unwrap();

    let player_move = "nnnnnnn
            nnnnnnn
            nnnnnnn
            nnnnnnn
            nnnnnnn
            nnnpnnn";
    let position = BitBoard::from_string(player_move).unwrap().player;

    assert!(bits_1.is_winning_move(position));
    assert!(bits_2.is_winning_move(position));
    assert!(!bits_3.is_winning_move(position));
}

#[test]
fn test_winning_board_horizontal() {
    let board_1 = "nnnnnnn
            nnnnnnn
            nnnnnnn
            nnnnnnn
            nnnnnnn
            ppppnnn";
    let board_2 = "nnnnnnn
            nnnnnnn
            nnnnnnn
            nnnnnnn
            nnnnnnn
            nnnpppp";
    let board_3 = "nnnnnnn
            nnnnnnn
            nnnnnnn
            nnnnnnn
            nnnnnnn
            nnnpppn";
    let bits_1 = BitBoard::from_string(board_1).unwrap();
    let bits_2 = BitBoard::from_string(board_2).unwrap();
    let bits_3 = BitBoard::from_string(board_3).unwrap();

    assert!(bits_1.has_won());
    assert!(bits_2.has_won());
    assert!(!bits_3.has_won());
}

#[test]
fn test_winning_move_up_right() {
    let board_1 = "nnnnnnn
            nnnnnnn
            nnnnnnn
            nnnpnnn
            nnpnnnn
            npnnnnn";
    let board_2 = "nnnnnnn
            nnnnnpn
            nnnnnnn
            nnnpnnn
            nnpnnnn
            nnnnnnn";
    let bits_1 = BitBoard::from_string(board_1).unwrap();
    let bits_2 = BitBoard::from_string(board_2).unwrap();

    let player_move = "nnnnnnn
            nnnnnnn
            nnnnpnn
            nnnnnnn
            nnnnnnn
            nnnnnnn";
    let position = BitBoard::from_string(player_move).unwrap().player;

    assert!(bits_1.is_winning_move(position));
    assert!(bits_2.is_winning_move(position));
}

#[test]
fn test_winning_board_up_right() {
    let board_1 = "nnnnnnn
            nnnnnnn
            nnnnpnn
            nnnpnnn
            nnpnnnn
            npnnnnn";
    let board_2 = "nnnnnnp
            nnnnnpn
            nnnnpnn
            nnnpnnn
            nnpnnnn
            nnnnnnn";
    let bits_1 = BitBoard::from_string(board_1).unwrap();
    let bits_2 = BitBoard::from_string(board_2).unwrap();

    assert!(bits_1.has_won());
    assert!(bits_2.has_won());
}

#[test]
fn test_winning_move_up_left() {
    let board_1 = "nnnnnnn
            nnnnnnn
            nnnnnnn
            nnnpnnn
            nnnnpnn
            nnnnnpn";
    let board_2 = "nnnnnnn
            npnnnpn
            nnnnnnn
            nnnpnnn
            nnnnpnn
            nnnnnnn";
    let bits_1 = BitBoard::from_string(board_1).unwrap();
    let bits_2 = BitBoard::from_string(board_2).unwrap();

    let player_move = "nnnnnnn
            nnnnnnn
            nnpnnnn
            nnnnnnn
            nnnnnnn
            nnnnnnn";
    let position = BitBoard::from_string(player_move).unwrap().player;

    assert!(bits_1.is_winning_move(position));
    assert!(bits_2.is_winning_move(position));
}

#[test]
fn test_winning_board_up_left() {
    let board_1 = "nnnnnnn
            nnnnnnn
            nnpnnnn
            nnnpnnn
            nnnnpnn
            nnnnnpn";
    let board_2 = "pnnnnnn
            npnnnpn
            nnpnnnn
            nnnpnnn
            nnnnnnn
            nnnnnnn";
    let bits_1 = BitBoard::from_string(board_1).unwrap();
    let bits_2 = BitBoard::from_string(board_2).unwrap();

    assert!(bits_1.has_won());
    assert!(bits_2.has_won());
}

#[test]
fn test_all_possible_moves() {
    let board_2 = "nnnnnnn
            nnnnnnn
            nnnnnnn
            nnnpnnn
            nnnppnn
            nnnpppn";
    let expected_2 = "nnnnnnn
            nnnnnnn
            nnnpnnn
            nnnnpnn
            nnnnnpn
            pppnnnp";

    let board_1 = BitBoard::default();
    let board_2 = BitBoard::from_string(board_2).unwrap();

    let possible = board_1.all_possible_moves();
    assert_eq!(possible, BitBoard::BOTTOM_LINE & BitBoard::PLAYABLE_FIELDS);

    let possible = board_2.all_possible_moves();
    let expected = BitBoard::from_string(expected_2).unwrap().player;
    assert_eq!(possible, expected);
}
