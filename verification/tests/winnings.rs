use pkcore::casino::table::seats::seat_equity::SeatEquity;
use pkcore::casino::table::seats::seatbit::Seatbit;
use pkcore::casino::table::winnings::{HandRank, Winnings};

const SEAT_0: Seatbit = Seatbit(1);
const SEAT_1: Seatbit = Seatbit(1 << 1);

#[test]
fn winnings_display_contains_equity_and_eval() {
    let equity = SeatEquity::new(150, SEAT_0 | SEAT_1);
    // A royal flush is the best hand there is: rank 1.
    let eval = HandRank(1);

    let w = Winnings { equity, eval };

    let s = w.to_string();
    assert!(s.contains("Winnings("));
    assert!(s.contains("chips=150"));
    assert!(s.contains("Royal") || s.contains("HandRank") || s.contains("A"));
}

#[test]
fn winnings_display_is_exact() {
    let w = Winnings { equity: SeatEquity::new(400, Seatbit(1 << 1)), eval: HandRank(0) };
    assert_eq!(
        "Winnings(equity=SeatEquity(chips=400, seats=0b0000000000000010, count=1), eval=HandRank(0))",
        w.to_string()
    );
}
