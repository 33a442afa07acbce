use pkcore::casino::dealer::{Dealer, DealerAction, DealerError};
use pkcore::casino::game::ForcedBets;
use pkcore::casino::state::PlayerState;
use pkcore::casino::table::player::Player;
use pkcore::casino::table::winnings::HandRank;
use pkcore::error::PKError;

fn two_player_dealer() -> Dealer {
    let mut dealer = Dealer::new(ForcedBets::new(50, 100), 6);
    dealer.seat_player(Player::new_with_chips("Alice".to_string(), 10_000)).unwrap();
    dealer.seat_player(Player::new_with_chips("Bob".to_string(), 10_000)).unwrap();
    dealer
}

fn six_player_dealer() -> Dealer {
    let mut dealer = Dealer::new(ForcedBets::new(50, 100), 6);
    for i in 0..6 {
        dealer.seat_player(Player::new_with_chips(format!("Player {i}"), 10_000)).unwrap();
    }
    dealer
}

fn unranked(n: usize) -> Vec<HandRank> {
    vec![HandRank(0); n]
}

#[test]
fn dealer_new() {
    let dealer = Dealer::new(ForcedBets::new(50, 100), 6);
    assert!(!dealer.is_hand_in_progress());
    assert_eq!(6, dealer.table.seats.size());
}

#[test]
fn seat_player__success() {
    let mut dealer = Dealer::new(ForcedBets::new(50, 100), 6);
    let seat = dealer.seat_player(Player::new_with_chips("Alice".to_string(), 5_000)).unwrap();
    assert_eq!(0, seat);
}

#[test]
fn seat_player__table_full() {
    let mut dealer = Dealer::new(ForcedBets::new(50, 100), 1);
    dealer.seat_player(Player::new_with_chips("Alice".to_string(), 5_000)).unwrap();
    let err = dealer.seat_player(Player::new_with_chips("Bob".to_string(), 5_000)).unwrap_err();
    assert_eq!(DealerError::TableFull, err);
}

#[test]
fn seat_player_at__success() {
    let mut dealer = Dealer::new(ForcedBets::new(50, 100), 6);
    dealer.seat_player_at(Player::new_with_chips("Alice".to_string(), 5_000), 3).unwrap();
    assert!(dealer.table.get_seat(3).is_some_and(|s| !s.is_empty()));
}

#[test]
fn seat_player_at__seat_taken_returns_error() {
    let mut dealer = Dealer::new(ForcedBets::new(50, 100), 6);
    dealer.seat_player_at(Player::new_with_chips("Alice".to_string(), 5_000), 0).unwrap();
    let err = dealer.seat_player_at(Player::new_with_chips("Bob".to_string(), 5_000), 0).unwrap_err();
    assert_eq!(DealerError::TableError(PKError::TableFull), err);
}

#[test]
fn seat_player_at__no_such_seat_returns_error() {
    let mut dealer = Dealer::new(ForcedBets::new(50, 100), 6);
    let err = dealer.seat_player_at(Player::new_with_chips("Bob".to_string(), 5_000), 9).unwrap_err();
    assert_eq!(DealerError::TableError(PKError::InvalidSeatNumber), err);
}

#[test]
fn remove_player_between_hands() {
    let mut dealer = two_player_dealer();
    let removed = dealer.remove_player(1).unwrap();
    assert_eq!("Bob", removed.handle);
    assert!(dealer.table.get_seat(1).unwrap().is_empty());
}

#[test]
fn remove_player_mid_hand_is_refused() {
    let mut dealer = two_player_dealer();
    dealer.start_hand().unwrap();
    let err = dealer.remove_player(1).unwrap_err();
    assert!(matches!(err, DealerError::IllegalAction { .. }));
}

#[test]
fn start_hand__not_enough_players() {
    let mut dealer = Dealer::new(ForcedBets::new(50, 100), 6);
    dealer.seat_player(Player::new_with_chips("Alice".to_string(), 10_000)).unwrap();
    assert_eq!(Err(DealerError::NotEnoughPlayers), dealer.start_hand());
}

#[test]
fn start_hand__success() {
    let mut dealer = two_player_dealer();
    dealer.start_hand().unwrap();
    assert!(dealer.is_hand_in_progress());
}

#[test]
fn start_hand__already_in_progress() {
    let mut dealer = two_player_dealer();
    dealer.start_hand().unwrap();
    let err = dealer.start_hand().unwrap_err();
    assert!(matches!(err, DealerError::IllegalAction { .. }));
}

#[test]
fn start_hand_moves_the_button_to_a_seat_dealt_in() {
    let mut dealer = Dealer::new(ForcedBets::new(50, 100), 6);
    dealer.seat_player_at(Player::new_with_chips("Alice".to_string(), 10_000), 2).unwrap();
    dealer.seat_player_at(Player::new_with_chips("Bob".to_string(), 10_000), 4).unwrap();
    dealer.start_hand().unwrap();
    assert!(dealer.table.button == 2 || dealer.table.button == 4);
}

#[test]
fn act_before_hand_started_returns_error() {
    let mut dealer = two_player_dealer();
    let err = dealer.act(DealerAction::Check { seat: 0 }).unwrap_err();
    assert_eq!(DealerError::HandNotStarted, err);
}

#[test]
fn act_ready_before_hand_started_calls_do_ready() {
    let mut dealer = two_player_dealer();
    let result = dealer.act(DealerAction::Ready { seat: 0 });
    assert!(result.is_ok());
}

#[test]
fn act_ready_rejects_player_in_hand() {
    let mut dealer = two_player_dealer();
    let seat_in_hand: u8 = 0;
    dealer.table.seats.0[seat_in_hand as usize].player.state = PlayerState::YetToAct;
    let err = dealer.act(DealerAction::Ready { seat: seat_in_hand }).unwrap_err();
    assert_eq!(DealerError::HandInProgress, err);
}

#[test]
fn act_ready_before_hand_started_returns_ready_specific_error() {
    let mut dealer = two_player_dealer();
    let err = dealer.act(DealerAction::Ready { seat: 42 }).unwrap_err();
    assert_eq!(DealerError::NoSuchSeat, err);
}

#[test]
fn act_empty_seat_returns_error() {
    let mut dealer = two_player_dealer();
    dealer.start_hand().unwrap();
    let err = dealer.act(DealerAction::Fold { seat: 5 }).unwrap_err();
    assert!(matches!(err, DealerError::IllegalAction { .. }));
}

#[test]
fn act_dealer_event_is_not_a_player_action() {
    let mut dealer = two_player_dealer();
    dealer.start_hand().unwrap();
    let err = dealer.act(DealerAction::DealFlop).unwrap_err();
    match err {
        DealerError::IllegalAction { action, reason } => {
            assert_eq!(DealerAction::DealFlop, action);
            assert_eq!("This is a dealer event, not a player action", reason);
        }
        other => panic!("unexpected {other:?}"),
    }
}

#[test]
fn act_illegal_check_with_outstanding_bet() {
    let mut dealer = six_player_dealer();
    dealer.start_hand().unwrap();
    let utg = dealer.next_to_act();
    dealer.act(DealerAction::Bet { seat: utg, amount: 200 }).unwrap();
    let next = dealer.next_to_act();
    let err = dealer.act(DealerAction::Check { seat: next }).unwrap_err();
    assert!(matches!(err, DealerError::IllegalAction { .. }), "Expected IllegalAction, got {err:?}");
}

#[test]
fn act_raise_must_exceed_current_bet() {
    let mut dealer = six_player_dealer();
    dealer.start_hand().unwrap();
    let utg = dealer.next_to_act();
    dealer.act(DealerAction::Bet { seat: utg, amount: 300 }).unwrap();
    let next = dealer.next_to_act();
    let err = dealer.act(DealerAction::Raise { seat: next, amount: 200 }).unwrap_err();
    assert!(matches!(err, DealerError::IllegalAction { .. }));
}

#[test]
fn act_bet_below_the_big_blind_is_refused_with_the_reason() {
    let mut dealer = six_player_dealer();
    dealer.start_hand().unwrap();
    let utg = dealer.next_to_act();
    let err = dealer.act(DealerAction::Bet { seat: utg, amount: 60 }).unwrap_err();
    match err {
        DealerError::IllegalAction { reason, .. } => {
            assert_eq!("Bet of 60 is less than the minimum bet (big blind 100)", reason)
        }
        other => panic!("unexpected {other:?}"),
    }
}

#[test]
fn do_ready__no_such_seat() {
    let mut dealer = two_player_dealer();
    let err = dealer.do_ready(10).unwrap_err();
    assert_eq!(DealerError::NoSuchSeat, err);
}

#[test]
fn do_ready__empty_seat() {
    let mut dealer = two_player_dealer();
    let err = dealer.do_ready(5).unwrap_err();
    assert_eq!(DealerError::EmptySeat, err);
}

#[test]
fn do_ready__player_tapped_out() {
    let mut dealer = Dealer::new(ForcedBets::new(50, 100), 6);
    dealer.seat_player(Player::new_with_chips("Broke Bob".to_string(), 0)).unwrap();
    let err = dealer.do_ready(0).unwrap_err();
    assert_eq!(DealerError::PlayerIsTappedOut, err);
}

#[test]
fn do_ready__player_active() {
    let mut dealer = two_player_dealer();
    dealer.table.seats.0[0].player.state = PlayerState::YetToAct;
    assert!(dealer.table.get_seat(0).unwrap().player.is_active(), "Player should be active");
    let err = dealer.do_ready(0).unwrap_err();
    assert_eq!(DealerError::HandInProgress, err);
}

#[test]
fn do_ready__player_ready() {
    let mut dealer = two_player_dealer();
    let result = dealer.do_ready(0);
    assert!(result.is_ok());
    assert_eq!(PlayerState::Ready, result.unwrap().state);
}

#[test]
fn do_ready__player_out() {
    let mut dealer = two_player_dealer();
    dealer.table.seats.0[0].player.state = PlayerState::Out;
    let result = dealer.do_ready(0);
    assert!(result.is_ok());
}

#[test]
fn do_ready__player_folded() {
    let mut dealer = two_player_dealer();
    dealer.table.seats.0[0].player.state = PlayerState::Fold;
    let result = dealer.do_ready(0);
    assert!(result.is_ok(), "folded player should pass do_ready check");
}

#[test]
fn end_hand__before_hand_started_returns_error() {
    let mut dealer = two_player_dealer();
    assert_eq!(Err(DealerError::HandNotStarted), dealer.end_hand(&unranked(6)));
}

#[test]
fn chips_at__occupied_seat() {
    let dealer = two_player_dealer();
    assert_eq!(Some(10_000), dealer.chips_at(0));
}

#[test]
fn chips_at__empty_seat() {
    let dealer = two_player_dealer();
    assert_eq!(Some(0), dealer.chips_at(5));
}

#[test]
fn display() {
    let dealer = two_player_dealer();
    let s = dealer.to_string();
    assert!(s.contains("Dealer managing table"));
}

#[test]
fn run_through() {
    let mut dealer = Dealer::new(ForcedBets::new(50, 100), 2);
    dealer.seat_player(Player::new_with_chips("Alice".to_string(), 10_000)).unwrap();
    dealer.seat_player(Player::new_with_chips("Bob".to_string(), 10_000)).unwrap();
    dealer.start_hand().unwrap();

    let p1 = dealer.next_to_act();
    dealer.act(DealerAction::Call { seat: p1 }).unwrap();
    let p2 = dealer.next_to_act();
    dealer.act(DealerAction::Check { seat: p2 }).unwrap();

    dealer.advance_street().unwrap();
    assert_eq!(3, dealer.table.board.len(), "flop should have 3 cards");

    let p1 = dealer.next_to_act();
    dealer.act(DealerAction::Check { seat: p1 }).unwrap();
    let p2 = dealer.next_to_act();
    dealer.act(DealerAction::Bet { seat: p2, amount: 200 }).unwrap();
    let p1 = dealer.next_to_act();
    dealer.act(DealerAction::Fold { seat: p1 }).unwrap();

    assert!(dealer.table.is_game_over(), "hand should be over after fold");

    let result = dealer.end_hand(&unranked(2)).unwrap();
    assert!(!dealer.is_hand_in_progress());

    assert_eq!(
        result[0].to_string(),
        "Winnings(equity=SeatEquity(chips=400, seats=0b0000000000000010, count=1), eval=HandRank(0))"
    );
}

#[test]
fn second_hand_only_deals_to_seated_players_on_six_seat_table() {
    let mut dealer = Dealer::new(ForcedBets::new(50, 100), 6);
    dealer.seat_player_at(Player::new_with_chips("Alice".to_string(), 10_000), 0).unwrap();
    dealer.seat_player_at(Player::new_with_chips("Bob".to_string(), 10_000), 3).unwrap();

    dealer.start_hand().unwrap();
    let first_to_act = dealer.next_to_act();
    dealer.act(DealerAction::Fold { seat: first_to_act }).unwrap();
    assert!(dealer.table.is_game_over());
    dealer.end_hand(&unranked(6)).unwrap();

    dealer.start_hand().unwrap();
    let dealt_counts: Vec<usize> =
        (0..6).map(|i| dealer.table.get_seat(i).unwrap().cards.number_of_dealt_cards()).collect();
    assert_eq!(vec![2, 0, 0, 2, 0, 0], dealt_counts);
}

#[test]
fn run_through_2_with_4() {
    let mut dealer = Dealer::new(ForcedBets::new(50, 100), 4);
    dealer.seat_player_at(Player::new_with_chips("Alice".to_string(), 10_000), 0).unwrap();
    dealer.seat_player_at(Player::new_with_chips("Bob".to_string(), 10_000), 3).unwrap();
    dealer.start_hand().unwrap();

    let p1 = dealer.next_to_act();
    dealer.act(DealerAction::Call { seat: p1 }).unwrap();
    let p2 = dealer.next_to_act();
    dealer.act(DealerAction::Check { seat: p2 }).unwrap();

    dealer.advance_street().unwrap();
    assert_eq!(3, dealer.table.board.len(), "flop should have 3 cards");

    let p1 = dealer.next_to_act();
    dealer.act(DealerAction::Check { seat: p1 }).unwrap();
    let p2 = dealer.next_to_act();
    dealer.act(DealerAction::Bet { seat: p2, amount: 200 }).unwrap();
    let p1 = dealer.next_to_act();
    dealer.act(DealerAction::Fold { seat: p1 }).unwrap();

    assert!(dealer.table.is_game_over(), "hand should be over after fold");

    let result = dealer.end_hand(&unranked(4)).unwrap();
    assert!(!dealer.is_hand_in_progress());

    assert_eq!(
        result[0].to_string(),
        "Winnings(equity=SeatEquity(chips=400, seats=0b0000000000001000, count=1), eval=HandRank(0))"
    );
}

#[test]
fn set_funded_players_to_yet_to_act_sets_only_eligible_players() {
    let mut dealer = Dealer::new(ForcedBets::new(50, 100), 4);
    dealer.seat_player_at(Player::new_with_chips("Alice".to_string(), 10_000), 0).unwrap();
    dealer.seat_player_at(Player::new_with_chips("Bob".to_string(), 0), 1).unwrap();
    dealer.table.seats.0[0].player.state = PlayerState::Out;
    dealer.table.seats.0[1].player.state = PlayerState::Out;

    dealer.set_funded_players_to_yet_to_act().unwrap();

    assert_eq!(PlayerState::YetToAct, dealer.table.get_seat(0).unwrap().player.state);
    assert_eq!(PlayerState::Out, dealer.table.get_seat(1).unwrap().player.state);
}

#[test]
fn set_funded_players_to_yet_to_act_returns_error_when_hand_in_progress() {
    let mut dealer = Dealer::new(ForcedBets::new(50, 100), 2);
    dealer.seat_player(Player::new_with_chips("Alice".to_string(), 10_000)).unwrap();
    dealer.seat_player(Player::new_with_chips("Bob".to_string(), 10_000)).unwrap();
    dealer.start_hand().unwrap();
    let err = dealer.set_funded_players_to_yet_to_act().unwrap_err();
    assert_eq!(DealerError::HandInProgress, err);
}

#[test]
fn dealer_hand_keeps_every_chip() {
    // Chips are conserved over a whole hand driven through the dealer.
    let mut dealer = Dealer::new(ForcedBets::new(50, 100), 3);
    for name in ["A", "B", "C"] {
        dealer.seat_player(Player::new_with_chips(name.to_string(), 1_000)).unwrap();
    }
    dealer.start_hand().unwrap();
    loop {
        if dealer.table.is_game_over() {
            break;
        }
        if dealer.table.is_betting_complete() {
            dealer.advance_street().unwrap();
            continue;
        }
        let s = dealer.next_to_act();
        dealer.act(DealerAction::Call { seat: s }).unwrap();
    }
    dealer.end_hand(&vec![HandRank(5), HandRank(3), HandRank(9)]).unwrap();
    let total: usize = (0..3).map(|i| dealer.chips_at(i).unwrap()).sum();
    assert_eq!(3_000, total);
    assert!(dealer.chips_at(1).unwrap() > 1_000);
}

#[test]
fn advance_street_deals_the_flop_after_preflop_betting() {
    let mut dealer = Dealer::new(ForcedBets::new(50, 100), 2);
    dealer.seat_player(Player::new_with_chips("Alice".to_string(), 10_000)).unwrap();
    dealer.seat_player(Player::new_with_chips("Bob".to_string(), 10_000)).unwrap();
    dealer.start_hand().unwrap();
    let p1 = dealer.next_to_act();
    dealer.act(DealerAction::Call { seat: p1 }).unwrap();
    let p2 = dealer.next_to_act();
    dealer.act(DealerAction::Check { seat: p2 }).unwrap();
    assert_eq!(0, dealer.table.board.len());
    dealer.advance_street().unwrap();
    assert_eq!(3, dealer.table.board.len());
    assert_eq!(200, dealer.pot());
}

#[test]
fn new_dealer_seats_hold_no_chips() {
    let dealer = Dealer::new(ForcedBets::new(50, 100), 4);
    for i in 0..4 {
        assert_eq!(Some(0), dealer.chips_at(i));
    }
    assert_eq!(None, dealer.chips_at(4));
    assert_eq!(0, dealer.pot());
}
