use othello::action::Action;
use othello::bitboard::BitBoardTrait;
use othello::board::Board;
use othello::constants::{FIRST_BLACK_BIT, FIRST_WHITE_BIT, TOP_BIT};
use othello::enums::{BoardStatus, WinningStatus};
use othello::agents::random::RandomAgent;
use othello::agents::Agent;
use othello::state::State;
use othello::turn::{Turn, TurnTrait};

fn cell_mask(i: usize) -> u64 {
    TOP_BIT >> i
}

fn coord(col: char, row: char) -> u64 {
    let c = col as usize - 'a' as usize;
    let r = row as usize - '1' as usize;
    cell_mask(r * 8 + c)
}

#[test]
fn codec_round_trips_all_64_coordinates() {
    for col in ['a', 'b', 'c', 'd', 'e', 'f', 'g', 'h'] {
        for row in ['1', '2', '3', '4', '5', '6', '7', '8'] {
            let text = format!("{}{}", col, row);
            let action = Action::action_from_str(&text);
            assert_eq!(action.to_string(), text);
            assert_eq!(action.to_str(), text);
            assert_eq!(action.bitboard, coord(col, row));
        }
    }
    for i in 0..64 {
        let action = Action::action_from_bitboard(cell_mask(i));
        let text = action.to_string();
        let back = Action::action_from_str(&text);
        assert_eq!(back.bitboard, cell_mask(i));
    }
}

#[test]
fn initial_position_has_the_four_canonical_openings() {
    let board = Board::init();
    let actions = board.legal_actions();
    assert_eq!(actions.len(), 4);
    let texts: Vec<String> = actions.iter().map(|a| a.to_string()).collect();
    assert_eq!(texts, vec!["d3", "c4", "f5", "e6"]);
}

#[test]
fn initial_state_is_the_standard_center_square() {
    let state = State::init();
    assert_eq!(state.player_bit, FIRST_BLACK_BIT);
    assert_eq!(state.opponent_bit, FIRST_WHITE_BIT);
    assert_eq!(state.player_bit, coord('e', '4') | coord('d', '5'));
    assert_eq!(state.opponent_bit, coord('d', '4') | coord('e', '5'));
}

#[test]
fn one_step_adds_exactly_one_disk_and_flips_ownership() {
    let board = Board::init();
    let before = board.state.player_bit.count() + board.state.opponent_bit.count();
    assert_eq!(before, 4);
    let action = Action::action_from_str("d3");
    let next = board.play_onestep(action);
    let after = next.state.player_bit.count() + next.state.opponent_bit.count();
    assert_eq!(after, 5);
    // Black placed d3 and flipped d4: black now owns d3, d4, d5, e4; white
    // keeps only e5. The new mover is white.
    assert_eq!(next.turn, Turn::White);
    assert_eq!(next.index, 2);
    assert_eq!(next.state.player_bit, coord('e', '5'));
    assert_eq!(
        next.state.opponent_bit,
        coord('d', '3') | coord('d', '4') | coord('d', '5') | coord('e', '4')
    );
}

#[test]
fn every_legal_opening_grows_the_board_by_one() {
    let board = Board::init();
    for action in board.legal_actions() {
        let next = board.play_onestep(action);
        assert_eq!(
            next.state.player_bit.count() + next.state.opponent_bit.count(),
            5
        );
        assert_eq!(next.state.player_bit & next.state.opponent_bit, 0);
    }
}

#[test]
fn status_of_initial_position_is_usual() {
    let board = Board::init();
    assert!(board.status() == BoardStatus::Usual);
    assert!(board.winning_status() == WinningStatus::NotFinished);
}

#[test]
fn lone_disk_is_a_finished_win() {
    // One mover disk, nothing else on the board: neither side can place.
    let mut board = Board::init();
    board.set_state(State::build(cell_mask(63), 0));
    assert!(board.status() == BoardStatus::Finished);
    assert!(board.winning_status() == WinningStatus::Win);
    assert_eq!(board.legal_actions_bitboard(), 0);
    assert_eq!(board.legal_actions().len(), 0);
}

#[test]
fn cornered_mover_must_pass() {
    // Mover owns b1 only; the opponent owns a1. The mover has no bounded run
    // to close, while the opponent-as-mover could place on c1.
    let mut board = Board::init();
    board.set_state(State::build(coord('b', '1'), coord('a', '1')));
    assert!(board.status() == BoardStatus::Pass);
    let passed = board.play_pass();
    assert_eq!(passed.state.player_bit, coord('a', '1'));
    assert_eq!(passed.state.opponent_bit, coord('b', '1'));
    assert!(passed.status() == BoardStatus::Usual);
    let actions = passed.legal_actions();
    assert_eq!(actions.len(), 1);
    assert_eq!(actions[0].to_string(), "c1");
}

#[test]
fn count_matches_the_number_of_set_bits() {
    assert_eq!(0u64.count(), 0);
    assert_eq!(u64::MAX.count(), 64);
    assert_eq!(TOP_BIT.count(), 1);
    assert_eq!(0x0000001008000000u64.count(), 2);
    assert_eq!(0xff00000000000000u64.count(), 8);
}

#[test]
fn turn_reverse_and_swap_flip_the_side() {
    assert_eq!(Turn::Black.reverse(), Turn::White);
    assert_eq!(Turn::White.reverse(), Turn::Black);
    let mut t = Turn::Black;
    t.swap();
    assert_eq!(t, Turn::White);
    t.swap();
    assert_eq!(t, Turn::Black);
}

#[test]
fn losing_and_drawn_endings_are_classified() {
    let mut board = Board::init();
    // Mover has one far corner, opponent holds a full detached row: finished,
    // and the mover is behind.
    board.set_state(State::build(cell_mask(63), 0xff00000000000000));
    assert!(board.status() == BoardStatus::Finished);
    assert!(board.winning_status() == WinningStatus::Lose);
    // One disk each, far apart: a finished draw.
    board.set_state(State::build(cell_mask(63), cell_mask(0)));
    assert!(board.winning_status() == WinningStatus::Draw);
}

#[test]
fn full_self_play_game_preserves_the_invariants() {
    let agent = RandomAgent {};
    let mut board = Board::init();
    let mut plies = 0;
    loop {
        assert_eq!(board.state.player_bit & board.state.opponent_bit, 0);
        match board.status() {
            BoardStatus::Finished => break,
            BoardStatus::Pass => {
                let before = board.state.player_bit.count() + board.state.opponent_bit.count();
                board = board.play_pass();
                let after = board.state.player_bit.count() + board.state.opponent_bit.count();
                assert_eq!(before, after);
            }
            BoardStatus::Usual => {
                let before = board.state.player_bit.count() + board.state.opponent_bit.count();
                let action = agent.next_action_option(&board).expect("status says a move exists");
                board = board.play_onestep(action);
                let after = board.state.player_bit.count() + board.state.opponent_bit.count();
                assert_eq!(after, before + 1);
            }
        }
        plies += 1;
        assert!(plies <= 130, "a game must end");
    }
    assert!(board.winning_status() != WinningStatus::NotFinished);
}

#[test]
fn result_reports_scores_by_color_and_the_winner() {
    let board = Board::init();
    assert_eq!(board.result(), (2, 2, "Draw"));
    let next = board.play_onestep(Action::action_from_str("d3"));
    // After black's d3 the mover is white, but the scores stay by color.
    assert_eq!(next.result(), (4, 1, "Black"));
}
