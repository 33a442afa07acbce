use pkcore::card::Bard;
use pkcore::casino::action::TableAction;
use pkcore::casino::game::ForcedBets;
use pkcore::casino::hand_history::{extract_actions_from_log, HandHistoryExt, PlayerAction, PokerHandHistory};
use pkcore::casino::session::PokerSession;
use pkcore::casino::table::player::Player;
use pkcore::casino::table::seat::Seat;
use pkcore::casino::table::seats::Seats;
use pkcore::casino::table::Table;

#[test]
fn new_hand_history() {
    let history = PokerHandHistory::new("test-hand-001".to_string());
    assert_eq!(history.version, "1.0");
    assert_eq!(history.hand_id, "test-hand-001");
    assert_eq!(history.players.len(), 0);
}

fn action(seat: u8, name: &str, amount: Option<usize>) -> PlayerAction {
    PlayerAction { seat, action: name.to_string(), amount, pot_after: None }
}

#[test]
fn extract_actions_splits_the_log_by_street() {
    let log = vec![
        TableAction::NewHand,
        TableAction::ForcedBetSmallBlind(0, 50),
        TableAction::Call(0, 50),
        TableAction::Check(1),
        TableAction::DealtFlop(Bard(0)),
        TableAction::Bet(1, 200),
        TableAction::Raise(0, 600),
        TableAction::DealtTurn(Bard(0)),
        TableAction::AllIn(1, 9_000),
        TableAction::Fold(0),
    ];
    let actions = extract_actions_from_log(&log);
    assert_eq!(
        Some(vec![action(0, "call", Some(50)), action(1, "check", None)]),
        actions.preflop
    );
    assert_eq!(
        Some(vec![action(1, "bet", Some(200)), action(0, "raise", Some(600))]),
        actions.flop
    );
    assert_eq!(
        Some(vec![action(1, "all-in", Some(9_000)), action(0, "fold", None)]),
        actions.turn
    );
    assert_eq!(None, actions.river);
}

#[test]
fn extract_actions_from_an_empty_log_records_nothing() {
    let actions = extract_actions_from_log(&vec![]);
    assert_eq!(None, actions.preflop);
    assert_eq!(None, actions.flop);
    assert_eq!(None, actions.turn);
    assert_eq!(None, actions.river);
}

#[test]
fn hand_history_of_a_dealt_table() {
    let seats = Seats::new(vec![
        Seat::new(Player::new_with_chips("Alice".to_string(), 10_000)),
        Seat::new(Player::new_with_chips("Bob".to_string(), 10_000)),
    ]);
    let mut session = PokerSession::new(Table::nlh_from_seats(seats, ForcedBets::new(50, 100)));
    session.start_hand().unwrap();
    let history = session.table.to_hand_history().unwrap();

    assert_eq!("1.0", history.version);
    assert_eq!("NoLimitHoldem", history.game.variant);
    assert_eq!(50, history.game.blinds.small_blind);
    assert_eq!(100, history.game.blinds.big_blind);
    assert_eq!(None, history.game.blinds.ante);
    assert_eq!(2, history.table.max_players);
    assert_eq!(2, history.players.len());
    assert_eq!("Alice", history.players[0].name);
    assert_eq!("Bob", history.players[1].name);
    assert_eq!(0, history.players[0].seat);
    assert_eq!(1, history.players[1].seat);
    assert_eq!(2, history.players[0].hole_cards.as_ref().unwrap().len());
    assert_eq!(session.table.button, history.button);
    assert!(history.timestamp.is_some());
    assert!(history.board.is_none());
    assert!(history.results.is_none());
    assert_eq!(history.table.id, Some(history.hand_id.clone()));
}

#[test]
fn hand_history_at_time_records_the_time_and_board_by_street() {
    let seats = Seats::new(vec![
        Seat::new(Player::new_with_chips("Alice".to_string(), 10_000)),
        Seat::new(Player::new_with_chips("Bob".to_string(), 10_000)),
    ]);
    let mut table = Table::nlh_from_seats(seats, ForcedBets::new(50, 100));
    table.act_forced_bets().unwrap();
    table.deal_cards_to_seats().unwrap();
    table.deal_flop().unwrap();
    table.deal_turn().unwrap();
    let history = PokerHandHistory::at_time(&table, "2024-01-01T00:00:00+00:00".to_string());
    assert_eq!(Some("2024-01-01T00:00:00+00:00".to_string()), history.timestamp);
    let board = history.board.unwrap();
    let flop: Vec<String> = table.board[0..3].iter().map(|c| c.to_string()).collect();
    assert_eq!(Some(flop), board.flop);
    assert_eq!(Some(table.board[3].to_string()), board.turn);
    assert_eq!(None, board.river);
}
