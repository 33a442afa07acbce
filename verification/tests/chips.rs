use pkcore::casino::cashier::chips::{Chips, Stack};
use pkcore::casino::chips::Chips as StartingChips;
use pkcore::error::PKError;

#[test]
fn chips_starting() {
    let chips = Chips::new(1_000);
    assert_eq!(chips.size(), 1_000);

    let stack = Stack::new(1_000);
    assert_eq!(stack.count(), 1_000);

    let starting = StartingChips::starting(1_000);
    assert_eq!(starting.stack(), 1_000);
}

#[test]
fn chips_all_in() {
    let mut starting = Chips::new(1_000);
    let expected = starting.clone();
    let bet = starting.all_in();
    assert!(bet.is_ok());
    assert_eq!(expected, bet.unwrap());
    assert_eq!(0, starting.size());

    let mut starting = Stack::new(1_000);
    let expected = starting.clone();
    let bet = starting.all_in();
    assert!(bet.is_ok());
    assert_eq!(expected, bet.unwrap());
    assert_eq!(0, starting.size());
}

#[test]
fn chips_all_in__busted() {
    let mut starting = Chips::default();
    let busted = starting.all_in();
    assert!(busted.is_err());
    assert_eq!(PKError::Busted, busted.unwrap_err());
    assert_eq!(starting, Chips::default());

    let mut starting = Stack::default();
    let busted = starting.all_in();
    assert!(busted.is_err());
    assert_eq!(PKError::Busted, busted.unwrap_err());
    assert_eq!(starting, Stack::default());
}

#[test]
fn chips_bet() {
    let mut starting = Chips::new(1_000);
    let expected = Chips::new(50);
    let bet = starting.bet(50);
    assert!(bet.is_ok());
    assert_eq!(expected, bet.unwrap());
    assert_eq!(950, starting.size());

    let mut starting = Stack::new(1_000);
    let expected = Stack::new(50);
    let bet = starting.bet(50);
    assert!(bet.is_ok());
    assert_eq!(expected, bet.unwrap());
    assert_eq!(950, starting.size());
}

#[test]
fn chips_bet__insufficient() {
    let mut starting = Chips::new(1_000);
    let bet = starting.bet(1_001);
    assert!(bet.is_err());
    assert_eq!(PKError::InsufficientChips, bet.unwrap_err());

    let mut starting = Stack::new(1_000);
    let bet = starting.bet(1_001);
    assert!(bet.is_err());
    assert_eq!(PKError::InsufficientChips, bet.unwrap_err());
}

#[test]
fn chips_win() {
    let mut starting = Chips::new(1_000);
    starting.wins(Chips::new(1_000_000));
    assert_eq!(Chips::new(1_001_000), starting);

    let mut starting = Stack::new(1_000);
    starting.wins(Stack::new(1_000_000));
    assert_eq!(Stack::new(1_001_000), starting);
}

#[test]
fn chips_add() {
    assert_eq!(Chips::new(1_001), Chips::new(1_000) + Chips::new(1));

    let mut stack = Stack::new(1_000);
    stack = stack + Stack::new(2);
    assert_eq!(Stack::new(1_001), Stack::new(1_000) + Stack::new(1));
    assert_eq!(Stack::new(1_002), stack);
}

#[test]
fn chips_default() {
    assert_eq!(Chips::default().size(), 0);
    assert_eq!(Stack::default().size(), 0);
    assert_eq!(StartingChips::default().stack(), 0);
}

#[test]
fn chips_sub() {
    assert_eq!(Chips::new(999), Chips::new(1_000) - Chips::new(1));
    assert_eq!(Stack::new(999), Stack::new(1_000) - Stack::new(1));
}

#[test]
fn add_to() {
    let mut stack = Stack::new(1_000_000);
    stack.add_to(Stack::new(9));
    assert_eq!(1_000_009, stack.count());
}

#[test]
fn chips_display_separates_thousands() {
    assert_eq!("1,234,567", Chips::new(1_234_567).to_string());
    assert_eq!("999", Stack::new(999).to_string());
    assert_eq!("10,000", StartingChips::starting(10_000).to_string());
}

#[test]
fn stack_divvy_up_splits_as_evenly_as_chips_allow() {
    let shares = Stack::new(10).divvy_up(3);
    assert_eq!(vec![Stack::new(4), Stack::new(3), Stack::new(3)], shares);
    let total: usize = shares.iter().map(|s| s.count()).sum();
    assert_eq!(10, total);
}

#[test]
fn chips_remove_refuses_more_than_held() {
    let mut c = Chips::new(100);
    assert_eq!(None, c.remove(Chips::new(101)));
    assert_eq!(Some(Chips::new(40)), c.remove(Chips::new(40)));
    assert_eq!(60, c.size());
}

#[test]
fn starting() {
    let chips = Stack::new(1_000);
    assert_eq!(chips.count(), 1_000);
}

#[test]
fn all_in() {
    let mut starting = Stack::new(1_000);
    let expected = starting.clone();
    let bet = starting.all_in();
    assert!(bet.is_ok());
    assert_eq!(expected, bet.unwrap());
    assert_eq!(0, starting.size());
}

#[test]
fn bet() {
    let mut starting = Stack::new(1_000);
    let expected = Stack::new(50);
    let bet = starting.bet(50);
    assert!(bet.is_ok());
    assert_eq!(expected, bet.unwrap());
    assert_eq!(950, starting.size());
}

#[test]
fn bet__insufficient() {
    let mut starting = Stack::new(1_000);
    let bet = starting.bet(1_001);
    assert!(bet.is_err());
    assert_eq!(PKError::InsufficientChips, bet.unwrap_err());
}

#[test]
fn win() {
    let mut starting = Stack::new(1_000);
    starting.wins(Stack::new(1_000_000));
    assert_eq!(Stack::new(1_001_000), starting);
}

#[test]
fn add() {
    let mut stack = Stack::new(1_000);
    stack.add_to(Stack::new(2));
    assert_eq!(Stack::new(1_001), Stack::new(1_000) + Stack::new(1));
    assert_eq!(Stack::new(1_002), stack);
}

#[test]
fn sub() {
    assert_eq!(Stack::new(999), Stack::new(1_000) - Stack::new(1));
}
