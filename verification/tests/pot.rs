use pkcore::casino::state::PlayerState;
use pkcore::casino::table::player::Player;
use pkcore::casino::table::pot::PotManager;
use pkcore::casino::table::seat::Seat;
use pkcore::casino::table::seats::Seats;

fn seat(name: &str, committed: usize, state: PlayerState) -> Seat {
    let mut player = Player::new_with_chips(name.to_string(), 1_000);
    player.chips_in_play = committed;
    player.state = state;
    Seat::new(player)
}

#[test]
fn create_pots_layers_main_and_side_pots() {
    let seats = Seats::new(vec![
        seat("A", 100, PlayerState::AllIn(100)),
        seat("B", 300, PlayerState::Call(300)),
        seat("C", 300, PlayerState::Raise(300)),
        seat("D", 50, PlayerState::Fold),
    ]);
    let pots = PotManager::create_pots(&seats).pots;
    assert_eq!(2, pots.len());
    assert_eq!(300, pots[0].amount);
    assert_eq!(vec![0, 1, 2], pots[0].eligible_seats);
    assert_eq!(400, pots[1].amount);
    assert_eq!(vec![1, 2], pots[1].eligible_seats);
    let total: usize = pots.iter().map(|p| p.amount).sum();
    assert_eq!(700, total);
}

#[test]
fn create_pots_orders_eligible_seats_by_commitment() {
    let seats = Seats::new(vec![
        seat("A", 500, PlayerState::Bet(500)),
        seat("B", 200, PlayerState::AllIn(200)),
        seat("C", 500, PlayerState::Call(500)),
    ]);
    let pots = PotManager::create_pots(&seats).pots;
    assert_eq!(2, pots.len());
    assert_eq!(600, pots[0].amount);
    assert_eq!(vec![1, 0, 2], pots[0].eligible_seats);
    assert_eq!(600, pots[1].amount);
    assert_eq!(vec![0, 2], pots[1].eligible_seats);
}

#[test]
fn create_pots_without_commitments_has_no_pot() {
    let seats = Seats::new(vec![
        seat("A", 0, PlayerState::YetToAct),
        seat("B", 0, PlayerState::YetToAct),
    ]);
    assert!(PotManager::create_pots(&seats).pots.is_empty());
}
