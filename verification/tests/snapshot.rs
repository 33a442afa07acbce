use pkcore::card::Card;
use pkcore::casino::game::ForcedBets;
use pkcore::casino::table::player::Player;
use pkcore::casino::table::seat::Seat;
use pkcore::casino::table::seats::Seats;
use pkcore::casino::table::snapshot::{TableState, SNAPSHOT_VERSION};
use pkcore::casino::table::Table;
use pkcore::error::PKError;

fn two_player_table() -> Table {
    let seats = Seats::new(vec![
        Seat::new(Player::new_with_chips("Alice".to_string(), 10_000)),
        Seat::new(Player::new_with_chips("Bob".to_string(), 10_000)),
    ]);
    Table::nlh_from_seats(seats, ForcedBets::new(50, 100))
}

fn mid_hand_table() -> Table {
    let mut table = two_player_table();
    table.act_forced_bets().unwrap();
    table.deal_cards_to_seats().unwrap();
    table
}

#[test]
fn snapshot_round_trips_a_fresh_table() {
    let table = two_player_table();
    let restored = Table::restore(&TableState::snapshot(&table)).unwrap();
    assert_eq!(table, restored);
}

#[test]
fn snapshot_round_trips_a_mid_hand_table() {
    let table = mid_hand_table();
    let restored = Table::restore(&TableState::snapshot(&table)).unwrap();
    assert_eq!(table, restored);
}

#[test]
fn snapshot_preserves_deck_order() {
    let table = mid_hand_table();
    let restored = Table::restore(&TableState::snapshot(&table)).unwrap();
    assert_eq!(table.deck, restored.deck);
    assert!(table.deck.len() > 40, "a mid-hand deck still holds most of the pack");
}

#[test]
fn snapshot_preserves_blank_seat_cards() {
    let table = two_player_table();
    assert!(table.seats.0.iter().all(|seat| !seat.cards.is_dealt()), "pre-deal seats hold blanks");
    let restored = Table::restore(&TableState::snapshot(&table)).unwrap();
    for (before, after) in table.seats.0.iter().zip(restored.seats.0.iter()) {
        assert_eq!(before.cards, after.cards);
        assert_eq!(before.cards.len(), after.cards.len());
    }
}

#[test]
fn snapshot_is_deterministic() {
    let table = mid_hand_table();
    assert_eq!(TableState::snapshot(&table), TableState::snapshot(&table));
}

#[test]
fn restore_rejects_an_unknown_version() {
    let mut state = TableState::snapshot(&mid_hand_table());
    state.version = SNAPSHOT_VERSION + 1;
    assert_eq!(
        Err(PKError::SnapshotVersion { found: SNAPSHOT_VERSION + 1, expected: SNAPSHOT_VERSION }),
        Table::restore(&state)
    );
}

#[test]
fn restore_rejects_an_unparseable_card() {
    let mut state = TableState::snapshot(&mid_hand_table());
    state.deck[0] = Card(60);
    assert_eq!(Err(PKError::InvalidCardIndex), Table::restore(&state));
}

#[test]
fn snapshot_carries_blank_cards() {
    let state = TableState::snapshot(&two_player_table());
    assert!(state.seats.iter().all(|seat| seat.cards.is_empty() && seat.slots == 2), "undealt slots are kept as blanks");
    assert!(Table::restore(&state).is_ok());
}

#[test]
fn snapshot_survives_audit_chip_total() {
    let table = mid_hand_table();
    let restored = Table::restore(&TableState::snapshot(&table)).unwrap();
    assert_eq!(table.hand_chip_total, restored.hand_chip_total);
    assert_eq!(20_000, restored.hand_chip_total);
    assert_eq!(table.pot, restored.pot);
}
