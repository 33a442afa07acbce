use pkcore::casino::action::PlayerAction;
use pkcore::casino::game::ForcedBets;
use pkcore::casino::state::PlayerState;
use pkcore::casino::table::player::Player;
use pkcore::casino::table::seat::Seat;
use pkcore::casino::table::seats::Seats;
use pkcore::casino::table::Table;

fn dealt_table() -> Table {
    let seats = Seats::new(vec![
        Seat::new(Player::new_with_chips("Alice".to_string(), 10_000)),
        Seat::new(Player::new_with_chips("Bob".to_string(), 10_000)),
    ]);
    let mut table = Table::nlh_from_seats(seats, ForcedBets::new(50, 100));
    table.act_forced_bets().unwrap();
    table.deal_cards_to_seats().unwrap();
    table
}

#[test]
fn every_listed_action_is_accepted() {
    let table = dealt_table();
    let seat = table.next_to_act();
    let actions = table.legal_actions(seat);
    assert!(!actions.is_empty());
    for a in actions {
        let mut t = table.clone();
        assert!(t.apply_action(seat, a).is_ok(), "{a:?} was listed but refused");
    }
}

#[test]
fn a_seat_merely_ready_is_offered_nothing() {
    let mut table = dealt_table();
    let seat = table.next_to_act();
    table.seats.0[seat as usize].player.state = PlayerState::Ready;
    table.seats.0[seat as usize].player.bet = 100;
    table.bet = 100;
    assert!(table.legal_actions(seat).is_empty());
}

#[test]
fn facing_a_bet_fold_call_raise_and_all_in_are_offered() {
    let table = dealt_table();
    let seat = table.next_to_act();
    let actions = table.legal_actions(seat);
    assert!(actions.contains(&PlayerAction::Fold));
    assert!(actions.contains(&PlayerAction::Call));
    assert!(actions.contains(&PlayerAction::AllIn));
    assert!(!actions.contains(&PlayerAction::Check));
}
