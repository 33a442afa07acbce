use pkcore::casino::table::seats::seat_equity::{sort_equities, SeatEquity};
use pkcore::casino::table::seats::seatbit::Seatbit;

const SEAT_0: Seatbit = Seatbit(0b0000_0000_0000_0001);
const SEAT_1: Seatbit = Seatbit(0b0000_0000_0000_0010);
const SEAT_2: Seatbit = Seatbit(0b0000_0000_0000_0100);
const SEAT_4: Seatbit = Seatbit(0b0000_0000_0001_0000);

#[test]
fn seat_equity_sort_orders_by_highest_chips_first() {
    let equities = vec![
        SeatEquity::new(5_000, SEAT_1),
        SeatEquity::new(10_000, SEAT_0),
        SeatEquity::new(9_000, SEAT_2),
    ];
    let equities = sort_equities(equities);
    assert_eq!(equities[0], SeatEquity::new(10_000, SEAT_0));
    assert_eq!(equities[1], SeatEquity::new(9_000, SEAT_2));
    assert_eq!(equities[2], SeatEquity::new(5_000, SEAT_1));
}

#[test]
fn seat_equity_sort_uses_seatbit_as_tiebreaker() {
    let equities = vec![SeatEquity::new(9_000, SEAT_2), SeatEquity::new(9_000, SEAT_1)];
    let equities = sort_equities(equities);
    assert_eq!(equities[0], SeatEquity::new(9_000, SEAT_1));
    assert_eq!(equities[1], SeatEquity::new(9_000, SEAT_2));
}

#[test]
fn seat_equity_is_nada_returns_true_for_default() {
    assert!(SeatEquity::default().is_nada());
}

#[test]
fn seat_equity_is_nada_returns_false_for_non_default() {
    let equity = SeatEquity::new(1, SEAT_0);
    assert!(!equity.is_nada());
}

#[test]
fn seat_equity_display_binary_format() {
    let equity = SeatEquity::new(100, SEAT_0 | SEAT_1);
    let rendered = equity.to_string();
    assert!(rendered.contains("seats=0b0000000000000011"), "rendered='{}'", rendered);
    assert!(rendered.contains("chips=100"), "rendered='{}'", rendered);
    assert!(rendered.contains("count=2"), "rendered='{}'", rendered);
}

#[test]
fn seatbit_display() {
    let combo = SEAT_0 + SEAT_1;
    assert_eq!(SEAT_0.to_string(), "1");
    assert_eq!(SEAT_1.to_string(), "10");
    assert_eq!(combo.to_string(), "11");
}

#[test]
fn add_combines_bits() {
    let seats = SEAT_0 + SEAT_1;
    assert_eq!(seats, Seatbit(0b0000_0000_0000_0011));
}

#[test]
fn subtract_removes_bits() {
    let seats = SEAT_0 + SEAT_1 + SEAT_2;
    let remaining = seats - SEAT_1;
    assert_eq!(remaining, Seatbit(0b0000_0000_0000_0101));
}

#[test]
fn subtract_ignores_missing_bits() {
    let seats = SEAT_0;
    let remaining = seats - SEAT_4;
    assert_eq!(remaining, SEAT_0);
}

#[test]
fn add_assign_combines_bits() {
    let mut seats = SEAT_0;
    seats += SEAT_2;
    assert_eq!(seats, Seatbit(0b0000_0000_0000_0101));
}

#[test]
fn sub_assign_removes_bits() {
    let mut seats = SEAT_0 + SEAT_1 + SEAT_2;
    seats -= SEAT_1;
    assert_eq!(seats, Seatbit(0b0000_0000_0000_0101));
}

#[test]
fn sub_assign_ignores_missing_bits() {
    let mut seats = SEAT_0;
    seats -= SEAT_4;
    assert_eq!(seats, SEAT_0);
}

#[test]
fn seatbit_from_seat_and_contains() {
    let b = Seatbit::from_seat(3);
    assert_eq!(b, Seatbit(0b1000));
    assert!(b.contains(3));
    assert!(!b.contains(2));
    assert_eq!(Seatbit::from_seat(16), Seatbit(0));
    assert_eq!(3, (SEAT_0 | SEAT_1 | SEAT_4).count_ones());
}
