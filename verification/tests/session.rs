use pkcore::casino::action::PlayerAction;
use pkcore::casino::game::{ForcedBets, GameType};
use pkcore::casino::principal::Principal;
use pkcore::casino::session::{PokerSession, SessionStep};
use pkcore::casino::table::player::Player;
use pkcore::casino::table::seat::Seat;
use pkcore::casino::table::seats::Seats;
use pkcore::casino::table::winnings::{HandRank, Winnings};
use pkcore::casino::table::Table;
use pkcore::error::PKError;

fn two_player_session() -> PokerSession {
    let seats = Seats::new(vec![
        Seat::new(Player::new_with_chips("Alice".to_string(), 10_000)),
        Seat::new(Player::new_with_chips("Bob".to_string(), 10_000)),
    ]);
    PokerSession::new(Table::nlh_from_seats(seats, ForcedBets::new(50, 100)))
}

fn three_player_session() -> PokerSession {
    let seats = Seats::new(vec![
        Seat::new(Player::new_with_chips("Alice".to_string(), 10_000)),
        Seat::new(Player::new_with_chips("Bob".to_string(), 10_000)),
        Seat::new(Player::new_with_chips("Carol".to_string(), 10_000)),
    ]);
    PokerSession::new(Table::nlh_from_seats(seats, ForcedBets::new(50, 100)))
}

fn ranks(table: &Table) -> Vec<HandRank> {
    (0..table.seats.0.len()).map(|i| HandRank(i as u16 + 1)).collect()
}

#[test]
fn poker_session_new() {
    let session = two_player_session();
    assert_eq!(session.hand_number, 0);
}

#[test]
fn poker_session_start_hand() {
    let mut session = two_player_session();
    session.start_hand().unwrap();
    assert_eq!(session.hand_number, 1);
    assert!(session.table.seats.are_dealt());
}

#[test]
fn poker_session_hand_number_increments() {
    let mut session = two_player_session();
    session.run_hand(|_, _| PlayerAction::Fold, ranks).unwrap();
    assert_eq!(session.hand_number, 1);
    session.table.act_button_move();
    session.run_hand(|_, _| PlayerAction::Fold, ranks).unwrap();
    assert_eq!(session.hand_number, 2);
}

#[test]
fn poker_session_run_hand_fold_preflop() {
    let mut session = two_player_session();
    let winnings = session.run_hand(|_, _| PlayerAction::Fold, ranks).unwrap();
    assert!(!winnings.is_empty());
}

#[test]
fn poker_session_is_hand_complete_false_before_start() {
    let session = two_player_session();
    let _ = session.is_hand_complete();
}

#[test]
fn poker_session_is_hand_complete_after_fold() {
    let mut session = two_player_session();
    session.start_hand().unwrap();
    let seat = session.next_actor().unwrap().unwrap();
    session.apply_action(seat, PlayerAction::Fold).unwrap();
    assert!(session.is_hand_complete());
}

#[test]
fn poker_session_count_funded() {
    let session = two_player_session();
    assert_eq!(session.count_funded(), 2);
}

#[test]
fn poker_session_eliminate_busted() {
    let seats = Seats::new(vec![
        Seat::new(Player::new_with_chips("A".to_string(), 1_000)),
        Seat::new(Player::new_with_chips("B".to_string(), 0)),
    ]);
    let mut session = PokerSession::new(Table::nlh_from_seats(seats, ForcedBets::new(5, 10)));
    let busted = session.eliminate_busted();
    assert_eq!(busted, vec![1]);
    assert!(session.table.seats.get_seat(1).unwrap().is_empty());
}

#[test]
fn poker_session_next_actor_advances_to_flop() {
    let mut session = three_player_session();
    session.start_hand().unwrap();
    let mut flop_seen = false;
    for _ in 0..20 {
        match session.next_actor().unwrap() {
            None => break,
            Some(seat) => {
                if session.table.board.len() >= 3 {
                    flop_seen = true;
                    break;
                }
                session.apply_action(seat, PlayerAction::Call).unwrap();
            }
        }
    }
    assert!(flop_seen || session.is_hand_complete());
}

#[test]
fn poker_session_run_hand_call_down() {
    let mut session = two_player_session();
    let winnings = session.run_hand(|_, _| PlayerAction::Call, ranks).unwrap();
    assert!(!winnings.is_empty());
}

#[test]
fn next_actor_all_in_runout_no_stale_actor() {
    let seats = Seats::new(vec![
        Seat::new(Player::new_with_chips("A".to_string(), 200)),
        Seat::new(Player::new_with_chips("B".to_string(), 200)),
    ]);
    let mut session = PokerSession::new(Table::nlh_from_seats(seats, ForcedBets::new(50, 100)));
    session.start_hand().unwrap();
    let seat_a = session.next_actor().unwrap().unwrap();
    session.apply_action(seat_a, PlayerAction::AllIn).unwrap();
    let seat_b = session.next_actor().unwrap().unwrap();
    session.apply_action(seat_b, PlayerAction::AllIn).unwrap();
    let actor = session.next_actor().unwrap();
    assert!(actor.is_none(), "expected None for all-in run-out, got seat {actor:?}");
    let r = ranks(&session.table);
    let winnings = session.end_hand(&r).unwrap();
    assert!(!winnings.is_empty(), "expected a winner");
}

#[test]
fn next_actor_reports_failure_when_deal_cannot_complete() {
    let mut session = three_player_session();
    session.start_hand().unwrap();
    session.table.deck.clear();
    for _ in 0..3 {
        let seat = session.next_actor().unwrap().expect("a player should be to act preflop");
        session.apply_action(seat, PlayerAction::Call).unwrap();
    }
    assert_eq!(Err(PKError::NotEnoughCards), session.next_actor());
}

#[test]
fn next_step_reports_failure_when_deal_cannot_complete() {
    let mut session = three_player_session();
    session.start_hand().unwrap();
    session.table.deck.clear();
    for _ in 0..3 {
        if let SessionStep::PlayerToAct(seat) = session.next_step() {
            session.apply_action(seat, PlayerAction::Call).unwrap();
        }
    }
    assert_eq!(SessionStep::Failed(PKError::NotEnoughCards), session.next_step());
}

#[test]
fn abort_hand_returns_committed_chips() {
    let mut session = three_player_session();
    let before = session.table.table_chip_count();
    session.start_hand().unwrap();
    session.table.deck.clear();
    for _ in 0..3 {
        if let SessionStep::PlayerToAct(seat) = session.next_step() {
            session.apply_action(seat, PlayerAction::Call).unwrap();
        }
    }
    assert!(matches!(session.next_step(), SessionStep::Failed(_)));
    assert!(session.table.pot > 0, "chips should be committed before the abort");
    let refunded = session.abort_hand().unwrap();
    assert_eq!(300, refunded, "three players called 100 each");
    assert_eq!(before, session.table.table_chip_count(), "no chips created or destroyed");
    assert_eq!(0, session.table.pot);
    for seat in session.table.seats.0.iter() {
        assert_eq!(0, seat.player.chips_in_play);
        assert_eq!(10_000, seat.player.chips);
    }
}

#[test]
fn end_hand_refuses_a_failed_hand() {
    let mut session = three_player_session();
    session.start_hand().unwrap();
    session.table.deck.clear();
    for _ in 0..3 {
        if let SessionStep::PlayerToAct(seat) = session.next_step() {
            session.apply_action(seat, PlayerAction::Call).unwrap();
        }
    }
    let r = ranks(&session.table);
    assert_eq!(Err(PKError::ActionIsntFinished), session.end_hand(&r));
}

#[test]
fn next_step_hand_complete_implies_end_hand_succeeds() {
    let mut session = three_player_session();
    session.start_hand().unwrap();
    for _ in 0..40 {
        match session.next_step() {
            SessionStep::PlayerToAct(seat) => {
                session.apply_action(seat, PlayerAction::Call).unwrap();
            }
            SessionStep::StreetAdvanced => {}
            SessionStep::HandComplete => {
                let r = ranks(&session.table);
                assert!(session.end_hand(&r).is_ok(), "HandComplete but end_hand() failed");
                return;
            }
            SessionStep::Failed(e) => panic!("unexpected failure: {e:?}"),
        }
    }
    panic!("hand never completed");
}

#[test]
fn next_step_hand_complete_agrees_with_is_hand_complete() {
    let mut session = three_player_session();
    session.start_hand().unwrap();
    for _ in 0..40 {
        let step = session.next_step();
        if step == SessionStep::HandComplete {
            assert!(session.is_hand_complete(), "next_step() said HandComplete but is_hand_complete() is false");
            return;
        }
        if let SessionStep::PlayerToAct(seat) = step {
            session.apply_action(seat, PlayerAction::Call).unwrap();
        }
    }
    panic!("hand never completed");
}

#[test]
fn fold_gives_hand_complete_immediately() {
    let mut session = two_player_session();
    session.start_hand().unwrap();
    let step = session.next_step();
    let SessionStep::PlayerToAct(seat) = step else {
        panic!("expected PlayerToAct, got {step:?}");
    };
    session.apply_action(seat, PlayerAction::Fold).unwrap();
    assert_eq!(session.next_step(), SessionStep::HandComplete);
    assert_eq!(session.next_step(), SessionStep::HandComplete);
}

#[test]
fn preflop_complete_advances_to_flop_then_player_to_act() {
    let mut session = two_player_session();
    session.start_hand().unwrap();
    let mut advanced = false;
    for _ in 0..10 {
        match session.next_step() {
            SessionStep::PlayerToAct(seat) => {
                session.apply_action(seat, PlayerAction::Call).unwrap();
            }
            SessionStep::StreetAdvanced => {
                assert_eq!(session.table.board.len(), 3, "expected 3 board cards after StreetAdvanced");
                assert!(
                    matches!(session.next_step(), SessionStep::PlayerToAct(_)),
                    "expected PlayerToAct after StreetAdvanced"
                );
                advanced = true;
                break;
            }
            SessionStep::HandComplete => panic!("unexpected HandComplete before flop"),
            SessionStep::Failed(e) => panic!("unexpected failure: {e:?}"),
        }
    }
    assert!(advanced, "StreetAdvanced was never returned");
}

#[test]
fn all_in_runout_emits_three_street_advanced() {
    let seats = Seats::new(vec![
        Seat::new(Player::new_with_chips("A".to_string(), 200)),
        Seat::new(Player::new_with_chips("B".to_string(), 200)),
    ]);
    let mut session = PokerSession::new(Table::nlh_from_seats(seats, ForcedBets::new(50, 100)));
    session.start_hand().unwrap();
    let seat_a = match session.next_step() {
        SessionStep::PlayerToAct(s) => s,
        other => panic!("expected PlayerToAct, got {other:?}"),
    };
    session.apply_action(seat_a, PlayerAction::AllIn).unwrap();
    let seat_b = match session.next_step() {
        SessionStep::PlayerToAct(s) => s,
        other => panic!("expected PlayerToAct, got {other:?}"),
    };
    session.apply_action(seat_b, PlayerAction::AllIn).unwrap();
    let mut street_count = 0u32;
    loop {
        match session.next_step() {
            SessionStep::StreetAdvanced => {
                street_count += 1;
                assert!(street_count <= 3, "more than 3 StreetAdvanced in a run-out");
            }
            SessionStep::HandComplete => break,
            SessionStep::PlayerToAct(s) => panic!("unexpected PlayerToAct({s}) during all-in run-out"),
            SessionStep::Failed(e) => panic!("unexpected failure: {e:?}"),
        }
    }
    assert_eq!(street_count, 3, "expected flop+turn+river, got {street_count}");
    let r = ranks(&session.table);
    let winnings = session.end_hand(&r).unwrap();
    assert!(!winnings.is_empty());
}

#[test]
fn river_call_gives_hand_complete() {
    let mut session = two_player_session();
    session.start_hand().unwrap();
    let mut hand_complete = false;
    for _ in 0..60 {
        match session.next_step() {
            SessionStep::PlayerToAct(seat) => {
                session.apply_action(seat, PlayerAction::Call).unwrap();
            }
            SessionStep::StreetAdvanced => {}
            SessionStep::HandComplete => {
                hand_complete = true;
                break;
            }
            SessionStep::Failed(e) => panic!("unexpected failure: {e:?}"),
        }
    }
    assert!(hand_complete, "hand never reached HandComplete");
    let r = ranks(&session.table);
    let winnings = session.end_hand(&r).unwrap();
    assert!(!winnings.is_empty());
}

#[test]
fn is_hand_in_progress_false_before_first_hand() {
    let session = two_player_session();
    assert!(!session.is_hand_in_progress());
}

#[test]
fn is_hand_in_progress_true_during_hand() {
    let mut session = two_player_session();
    session.start_hand().unwrap();
    assert!(session.is_hand_in_progress());
}

#[test]
fn is_hand_in_progress_false_after_end_hand() {
    let mut session = two_player_session();
    session.run_hand(|_, _| PlayerAction::Fold, ranks).unwrap();
    assert!(!session.is_hand_in_progress());
}

#[test]
fn test_start_hand_captures_shuffled_deck_str() {
    let mut session = two_player_session();
    session.start_hand().unwrap();
    let deck_str = session.shuffled_deck_str.as_ref().expect("shuffled_deck_str should be set after start_hand");
    assert_eq!(52, deck_str.split_whitespace().count(), "shuffled deck string should contain exactly 52 card tokens");
}

#[test]
fn set_blinds_between_hands_applies_immediately() {
    let mut session = two_player_session();
    session.set_blinds(ForcedBets::new(100, 200));
    assert_eq!(100, session.table.forced.small_blind);
    assert_eq!(200, session.table.forced.big_blind);
}

#[test]
fn set_blinds_during_hand_defers_to_next_hand() {
    let mut session = two_player_session();
    session.start_hand().unwrap();
    session.set_blinds(ForcedBets::new(100, 200));
    assert_eq!(50, session.table.forced.small_blind);
    assert_eq!(100, session.table.forced.big_blind);
}

#[test]
fn deferred_blinds_take_effect_on_next_start_hand() {
    let mut session = two_player_session();
    session.start_hand().unwrap();
    session.set_blinds(ForcedBets::new(100, 200));
    let actor = session.next_actor().unwrap().unwrap();
    session.apply_action(actor, PlayerAction::Fold).unwrap();
    let r = ranks(&session.table);
    session.end_hand(&r).unwrap();
    session.start_hand().unwrap();
    assert_eq!(100, session.table.forced.small_blind);
    assert_eq!(200, session.table.forced.big_blind);
    assert_eq!(100, session.forced_at_hand_start().small_blind);
}

#[test]
fn forced_at_hand_start_snapshot_is_stable_during_hand() {
    let mut session = two_player_session();
    session.start_hand().unwrap();
    let captured = session.forced_at_hand_start();
    assert_eq!(50, captured.small_blind);
    assert_eq!(100, captured.big_blind);
    session.table.forced = ForcedBets::new(400, 800);
    let still_captured = session.forced_at_hand_start();
    assert_eq!(50, still_captured.small_blind);
    assert_eq!(100, still_captured.big_blind);
}

fn principal_for_seat(session: &PokerSession, seat: u8) -> Principal {
    let id = session.table.seats.0[seat as usize].player.id;
    Principal::new(id)
}

#[test]
fn view_reveals_only_owned_seat_hole_cards() {
    let mut session = two_player_session();
    session.start_hand().unwrap();
    let viewer = principal_for_seat(&session, 0);
    let view = session.view(Some(viewer));
    let own = view.seats.iter().find(|s| s.seat == 0).unwrap();
    assert!(own.hole_cards.is_some());
    assert!(!own.hole_cards.as_deref().unwrap().is_empty());
    assert!(view.seats.iter().filter(|s| s.seat != 0).all(|s| s.hole_cards.is_none()));
}

#[test]
fn view_hides_other_principals_hole_cards() {
    let mut session = three_player_session();
    session.start_hand().unwrap();
    let viewer = principal_for_seat(&session, 1);
    let view = session.view(Some(viewer));
    assert!(view.seats.iter().find(|s| s.seat == 1).unwrap().hole_cards.is_some());
    assert!(view.seats.iter().find(|s| s.seat == 0).unwrap().hole_cards.is_none());
    assert!(view.seats.iter().find(|s| s.seat == 2).unwrap().hole_cards.is_none());
}

#[test]
fn view_spectator_hides_all_hole_cards() {
    let mut session = three_player_session();
    session.start_hand().unwrap();
    let view = session.view(None);
    assert_eq!(view.seats.len(), 3);
    assert!(view.seats.iter().all(|s| s.hole_cards.is_none()));
}

#[test]
fn view_unseated_principal_sees_no_hole_cards() {
    let mut session = three_player_session();
    session.start_hand().unwrap();
    let stranger = Principal::new(0x1234_5678_9abc_def0_1234_5678_9abc_def0);
    let view = session.view(Some(stranger));
    assert!(view.seats.iter().all(|s| s.hole_cards.is_none()));
}

#[test]
fn view_spectator_reports_board_and_pot() {
    let mut session = two_player_session();
    session.start_hand().unwrap();
    let view = session.view(None);
    assert_eq!(view.game_type, GameType::NoLimitHoldem);
    assert!(view.pot > 0);
    assert!(view.board.is_empty());
}

#[test]
fn principal_round_trips_uuid() {
    let id: u128 = 0x0123_4567_89ab_cdef_0123_4567_89ab_cdef;
    let principal = Principal::from(id);
    let round_trip_id = u128::from(principal);
    assert_eq!(id, round_trip_id);
}

#[test]
fn session_hands_keep_every_chip() {
    let mut session = three_player_session();
    for _ in 0..3 {
        session.run_hand(|_, _| PlayerAction::Call, ranks).unwrap();
        session.table.act_button_move();
    }
    assert_eq!(30_000, session.table.table_chip_count());
}

#[test]
fn next_step_deals_the_flop_once_preflop_betting_closes() {
    let mut session = two_player_session();
    session.start_hand().unwrap();
    let first = session.table.next_to_act();
    session.apply_action(first, PlayerAction::Call).unwrap();
    let second = session.table.next_to_act();
    session.apply_action(second, PlayerAction::Check).unwrap();
    assert_eq!(SessionStep::StreetAdvanced, session.next_step());
    assert_eq!(3, session.table.board.len());
}

#[test]
fn run_hand_fold_ends_the_hand_and_counts_it() {
    let mut session = two_player_session();
    let winnings = session.run_hand(|_, _| PlayerAction::Fold, ranks).unwrap();
    assert!(!winnings.is_empty());
    assert_eq!(1, session.hand_number);
    assert!(!session.is_hand_in_progress());
    assert_eq!(20_000, session.table.table_chip_count());
}
