use pkcore::casino::game::ForcedBets;
use pkcore::casino::table::player::Player;
use pkcore::casino::table::seat::Seat;
use pkcore::casino::table::seats::Seats;
use pkcore::casino::table::winnings::HandRank;
use pkcore::casino::table::Table;

fn stacks(table: &Table) -> usize {
    table.seats.0.iter().map(|s| s.player.chips).sum()
}

/// The big blind posts 100 and folds while every other seat is all in for
/// less: the 20 chips above the largest all-in belong to nobody still in
/// the hand, and must still be paid out.
#[test]
fn process_multiway__bb_folds_over_contribution_no_chip_loss() {
    let seats = Seats::new(vec![
        Seat::new(Player::new_with_chips("BTN".to_string(), 70)),
        Seat::new(Player::new_with_chips("SB".to_string(), 80)),
        Seat::new(Player::new_with_chips("BB".to_string(), 600)),
        Seat::new(Player::new_with_chips("UTG".to_string(), 30)),
    ]);
    let mut table = Table::nlh_from_seats(seats, ForcedBets::new(50, 100));
    table.act_forced_bets().unwrap();
    table.deal_cards_to_seats().unwrap();
    table.act_all_in(3).expect("UTG all-in should succeed");
    table.act_all_in(0).expect("BTN all-in should succeed");
    table.act_all_in(1).expect("SB all-in should succeed");
    table.act_fold(2).expect("BB fold should succeed");
    assert!(table.is_betting_complete());
    table.bring_it_in().unwrap();
    table.deal_flop().unwrap();
    table.bring_it_in().unwrap();
    table.deal_turn().unwrap();
    table.bring_it_in().unwrap();
    table.deal_river().unwrap();
    assert!(table.is_game_over());

    let ranks = vec![HandRank(40), HandRank(20), HandRank(90), HandRank(10)];
    let result = table.end_hand(&ranks);
    assert!(result.is_ok(), "end_hand must not fail: {result:?}");
    assert_eq!(780, stacks(&table), "no chip is lost in the side pots");
    // UTG has the best hand and wins the main pot: 30 from each of the four.
    assert_eq!(120, table.seats.0[3].player.chips);
}
