use pkcore::casino::game::ForcedBets;
use pkcore::casino::manager::{TableEvent, TableManager};
use pkcore::casino::table::player::Player;
use pkcore::casino::table::seat::Seat;
use pkcore::casino::table::seats::Seats;
use pkcore::casino::table::winnings::HandRank;
use pkcore::error::PKError;

fn two_seats() -> Seats {
    Seats::new(vec![
        Seat::new(Player::new_with_chips("Alice".to_string(), 1_000)),
        Seat::new(Player::new_with_chips("Bob".to_string(), 1_000)),
    ])
}

#[test]
fn create_table_registers_the_table() {
    let mut manager = TableManager::new();
    let id = manager.create_table(two_seats(), ForcedBets::new(10, 20));
    assert!(manager.get_table(id).is_some());
}

#[test]
fn process_events_errors_on_unknown_table_id() {
    let mut manager = TableManager::new();
    manager.queue_event(TableEvent::DealCards { table_id: uuid::Uuid::new_v4().as_u128() });
    assert_eq!(manager.process_events(), Err(PKError::TableNotFound));
}

#[test]
fn process_events_deals_to_a_known_table() {
    let mut manager = TableManager::new();
    let id = manager.create_table(two_seats(), ForcedBets::new(10, 20));
    manager.queue_event(TableEvent::DealCards { table_id: id });
    assert_eq!(manager.process_events(), Ok(()));
}

#[test]
fn remove_table_drops_it() {
    let mut manager = TableManager::new();
    let id = manager.create_table(two_seats(), ForcedBets::new(10, 20));
    assert!(manager.remove_table(id).is_some());
    assert!(manager.get_table(id).is_none());
}

#[test]
fn process_events_handles_the_last_queued_first() {
    let mut manager = TableManager::new();
    let id = manager.create_table(two_seats(), ForcedBets::new(10, 20));
    // Popped first: the flop on a fresh deck deals, then the hole cards.
    manager.queue_event(TableEvent::DealCards { table_id: id });
    manager.queue_event(TableEvent::DealFlop { table_id: id });
    assert_eq!(manager.process_events(), Ok(()));
    let table = manager.get_table(id).unwrap();
    assert_eq!(3, table.board.len());
    assert!(table.seats.are_dealt());
    assert!(manager.event_queue.is_empty());
}

#[test]
fn process_events_stops_at_the_first_refusal() {
    let mut manager = TableManager::new();
    let id = manager.create_table(two_seats(), ForcedBets::new(10, 20));
    manager.queue_event(TableEvent::DealCards { table_id: id });
    manager.queue_event(TableEvent::EndHand { table_id: 7, ranks: vec![HandRank(0); 2] });
    assert_eq!(manager.process_events(), Err(PKError::TableNotFound));
    assert_eq!(1, manager.event_queue.len());
}

#[test]
fn process_events_applies_a_move_to_its_table_only() {
    let mut manager = TableManager::new();
    let a = manager.create_table(two_seats(), ForcedBets::new(10, 20));
    let b = manager.create_table(two_seats(), ForcedBets::new(10, 20));
    let untouched = manager.get_table(b).unwrap().clone();
    manager.queue_event(TableEvent::DealCards { table_id: a });
    assert_eq!(manager.process_events(), Ok(()));
    assert_eq!(&untouched, manager.get_table(b).unwrap());
    assert!(manager.get_table(a).unwrap().seats.are_dealt());
}
