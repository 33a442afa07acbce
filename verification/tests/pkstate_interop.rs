use pkcore::card::Bard;
use pkcore::casino::action::TableAction;
use pkcore::casino::game::ForcedBets;
use pkcore::casino::table::pkstate_interop::{dealt_action, split_rounds, HandState, StateAction};
use pkcore::casino::table::player::Player;
use pkcore::casino::table::seat::Seat;
use pkcore::casino::table::seats::Seats;
use pkcore::casino::table::Table;

fn played_table() -> Table {
    let mut table = Table::nlh_from_seats(
        Seats::new(vec![
            Seat::new(Player::new_with_chips("Ann".to_string(), 1_000)),
            Seat::new(Player::new_with_chips("Bo".to_string(), 1_000)),
        ]),
        ForcedBets::new(50, 100),
    );
    table.act_forced_bets().unwrap();
    table.deal_cards_to_seats().unwrap();
    table.deal_flop().unwrap();
    table
}

#[test]
fn pkstate_carries_every_seat_in_order() {
    let table = played_table();
    let state = HandState::from_table(&table);
    assert_eq!(2, state.players.len());
    assert_eq!("Ann", state.players[0].name);
    assert_eq!("Bo", state.players[1].name);
}

#[test]
fn pkstate_reports_each_seats_remaining_stack() {
    let table = played_table();
    let state = HandState::from_table(&table);
    for (index, seat) in table.seats.0.iter().enumerate() {
        assert_eq!(seat.player.chips, state.players[index].stack);
    }
}

#[test]
fn pkstate_carries_the_table_identity_and_button() {
    let table = played_table();
    let state = HandState::from_table(&table);
    assert_eq!(table.id, state.id);
    assert_eq!(table.button, state.button);
    assert_eq!((50, 100), (state.small_blind, state.big_blind), "blinds carry across unchanged");
}

#[test]
fn pkstate_carries_the_board_once_the_flop_is_out() {
    let table = played_table();
    let state = HandState::from_table(&table);
    assert!(state.board.is_some(), "the flop should have come across");
    assert_eq!(3, state.board.unwrap().len());
}

#[test]
fn pkstate_leaves_the_board_empty_before_the_flop() {
    let table = Table::default();
    let state = HandState::from_table(&table);
    assert!(state.board.is_none());
}

#[test]
fn pkstate_splits_the_event_log_into_rounds() {
    let table = played_table();
    let state = HandState::from_table(&table);
    assert!(!state.rounds.is_empty(), "posting blinds and dealing should produce at least one round");
    // The blinds and the hole cards make the first round; the flop opens the second.
    assert_eq!(2, state.rounds.len());
    assert!(matches!(state.rounds[1][0], StateAction::DealCommon(_)));
}

#[test]
fn dealt_action_gives_up_past_the_seats_pkstate_models() {
    assert_eq!(None, dealt_action(12, Bard::default()));
    assert_eq!(None, dealt_action(12, Bard(0b11)));
    assert_eq!(Some(StateAction::Dealt(11, Bard(0b11))), dealt_action(11, Bard(0b11)));
}

#[test]
fn split_rounds_cuts_at_each_street() {
    let log = vec![
        TableAction::ForcedBetSmallBlind(0, 50),
        TableAction::ForcedBetBigBlind(1, 100),
        TableAction::Call(0, 50),
        TableAction::Check(1),
        TableAction::DealtFlop(Bard(0b111)),
        TableAction::Bet(1, 200),
        TableAction::Fold(0),
        TableAction::PlayerWins(1, 7, Bard(0), 400, 400),
        TableAction::Fold(12),
    ];
    let rounds = split_rounds(&log);
    assert_eq!(
        vec![
            vec![
                StateAction::Cbr(0, 50),
                StateAction::Cbr(1, 100),
                StateAction::Cbr(0, 50),
                StateAction::Check(1),
            ],
            vec![
                StateAction::DealCommon(Bard(0b111)),
                StateAction::Cbr(1, 200),
                StateAction::Fold(0),
                StateAction::Wins(1, 400),
            ],
        ],
        rounds
    );
}
