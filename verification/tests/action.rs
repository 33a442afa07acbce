use pkcore::casino::action::PlayerAction;

#[test]
fn test_player_action_fold() {
    let a = PlayerAction::Fold;
    assert_eq!(a, PlayerAction::Fold);
}

#[test]
fn test_player_action_check() {
    assert_eq!(PlayerAction::Check, PlayerAction::Check);
}

#[test]
fn test_player_action_call() {
    assert_eq!(PlayerAction::Call, PlayerAction::Call);
}

#[test]
fn test_player_action_bet() {
    let a = PlayerAction::Bet(300);
    assert_eq!(a, PlayerAction::Bet(300));
    assert_ne!(a, PlayerAction::Bet(200));
}

#[test]
fn test_player_action_raise() {
    let a = PlayerAction::Raise(600);
    assert_eq!(a, PlayerAction::Raise(600));
}

#[test]
fn test_player_action_all_in() {
    assert_eq!(PlayerAction::AllIn, PlayerAction::AllIn);
}

#[test]
fn test_player_action_clone_copy() {
    let a = PlayerAction::Bet(100);
    let b = a;
    let c = a.clone();
    assert_eq!(a, b);
    assert_eq!(a, c);
}

#[test]
fn player_action_display_all_six_variants() {
    assert_eq!("Fold", PlayerAction::Fold.to_string());
    assert_eq!("Check", PlayerAction::Check.to_string());
    assert_eq!("Call", PlayerAction::Call.to_string());
    assert_eq!("Bet(200)", PlayerAction::Bet(200).to_string());
    assert_eq!("Raise(600)", PlayerAction::Raise(600).to_string());
    assert_eq!("AllIn", PlayerAction::AllIn.to_string());
}
