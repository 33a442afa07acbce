use pkcore::casino::game::ForcedBets;

#[test]
fn new_defaults_ante_and_bring_in_to_zero() {
    let fb = ForcedBets::new(50, 100);
    assert_eq!(50, fb.small_blind);
    assert_eq!(100, fb.big_blind);
    assert_eq!(0, fb.ante);
    assert_eq!(0, fb.bring_in);
}

#[test]
fn new_with_ante_leaves_bring_in_at_zero() {
    let fb = ForcedBets::new_with_ante(25, 50, 5);
    assert_eq!(5, fb.ante);
    assert_eq!(0, fb.bring_in);
}

#[test]
fn new_with_ante_and_bring_in() {
    let fb = ForcedBets::new_with_ante_and_bring_in(0, 0, 10, 30);
    assert_eq!(0, fb.small_blind);
    assert_eq!(0, fb.big_blind);
    assert_eq!(10, fb.ante);
    assert_eq!(30, fb.bring_in);
}

#[test]
fn default_is_all_zero() {
    let fb = ForcedBets::default();
    assert_eq!(0, fb.small_blind);
    assert_eq!(0, fb.big_blind);
    assert_eq!(0, fb.ante);
    assert_eq!(0, fb.bring_in);
}

#[test]
fn display_blinds_only() {
    let fb = ForcedBets::new(50, 100);
    assert_eq!("SB: 50, BB: 100", fb.to_string());
}

#[test]
fn display_with_ante() {
    let fb = ForcedBets::new_with_ante(25, 50, 5);
    assert_eq!("SB: 25, BB: 50, Ante: 5", fb.to_string());
}

#[test]
fn display_stud_shape() {
    let fb = ForcedBets::new_with_ante_and_bring_in(0, 0, 10, 30);
    assert_eq!("Ante: 10, Bring-in: 30", fb.to_string());
}
