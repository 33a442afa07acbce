use pkcore::casino::state::{PlayerState, PlayerStateCell};
use std::collections::hash_map::DefaultHasher;
use std::hash::{Hash, Hasher};

fn calculate_hash<T: Hash>(t: &T) -> u64 {
    let mut hasher = DefaultHasher::new();
    t.hash(&mut hasher);
    hasher.finish()
}

#[test]
fn agency__can_act() {
    // Out of the hand
    assert!(PlayerState::Blind(500).can_act());
    assert!(PlayerState::YetToAct.can_act());
    assert!(PlayerState::Check.can_act());
    assert!(PlayerState::Bet(500).can_act());
    assert!(PlayerState::Raise(500).can_act());
    assert!(PlayerState::ReRaise(500).can_act());

    assert!(!PlayerState::Fold.can_act());
    assert!(!PlayerState::Out.can_act());
    assert!(!PlayerState::AllIn(500).can_act());
}

#[test]
fn agency__can_given__isolated() {
    assert!(PlayerState::YetToAct.can_given(&PlayerState::Raise(300)));
    assert!(PlayerState::YetToAct.can_given(&PlayerState::Showdown(1000)));

    assert!(!PlayerState::AllIn(1000).can_given(&PlayerState::Raise(300)));
    assert!(PlayerState::Blind(100).can_given(&PlayerState::Check));
    assert!(!PlayerState::Check.can_given(&PlayerState::Blind(100)));
    assert!(!PlayerState::Check.can_given(&PlayerState::Check));
}

#[test]
fn agency__can_given_against__isolated() {
    assert!(PlayerState::Check.can_given_against(&PlayerState::Bet(500), &PlayerState::Bet(400)));
    assert!(PlayerState::Bet(100).can_given_against(&PlayerState::Bet(500), &PlayerState::Bet(400)));
}

#[test]
fn agency__can_given() {
    assert!(PlayerState::Out.can_given(&PlayerState::Ready));
    assert!(PlayerState::Out.can_given(&PlayerState::YetToAct));
    assert!(PlayerState::Ready.can_given(&PlayerState::YetToAct));
    assert!(PlayerState::YetToAct.can_given(&PlayerState::Check));
    assert!(PlayerState::YetToAct.can_given(&PlayerState::Bet(100)));
    assert!(PlayerState::YetToAct.can_given(&PlayerState::Call(100)));
    assert!(PlayerState::YetToAct.can_given(&PlayerState::Raise(100)));
    assert!(PlayerState::YetToAct.can_given(&PlayerState::ReRaise(100)));
    assert!(PlayerState::YetToAct.can_given(&PlayerState::AllIn(100)));
    assert!(PlayerState::YetToAct.can_given(&PlayerState::Fold));

    assert!(PlayerState::Blind(50).can_given(&PlayerState::Bet(200)));
    assert!(PlayerState::Blind(50).can_given(&PlayerState::Call(200)));
    assert!(PlayerState::Blind(50).can_given(&PlayerState::Raise(200)));
    assert!(PlayerState::Blind(50).can_given(&PlayerState::ReRaise(300)));
    assert!(PlayerState::Blind(50).can_given(&PlayerState::AllIn(500)));
    assert!(PlayerState::Blind(50).can_given(&PlayerState::Fold));
    assert!(PlayerState::Blind(100).can_given(&PlayerState::Check));
    assert!(!PlayerState::Blind(100).can_given(&PlayerState::Bet(50)));

    assert!(PlayerState::Check.can_given(&PlayerState::Fold));
    assert!(PlayerState::Check.can_given(&PlayerState::Call(100)));
    assert!(PlayerState::Check.can_given(&PlayerState::Bet(200)));
    assert!(PlayerState::Check.can_given(&PlayerState::Raise(100)));
    assert!(PlayerState::Check.can_given(&PlayerState::ReRaise(100)));
    assert!(PlayerState::Check.can_given(&PlayerState::AllIn(500)));
    assert!(!PlayerState::Check.can_given(&PlayerState::Blind(100)));
    assert!(!PlayerState::Check.can_given(&PlayerState::Check));

    assert!(PlayerState::Bet(100).can_given(&PlayerState::Fold));
    assert!(PlayerState::Bet(100).can_given(&PlayerState::Call(200)));
    assert!(PlayerState::Bet(100).can_given(&PlayerState::Raise(200)));
    assert!(PlayerState::Bet(100).can_given(&PlayerState::ReRaise(200)));
    assert!(PlayerState::Bet(100).can_given(&PlayerState::AllIn(500)));
    assert!(PlayerState::Bet(100).can_given(&PlayerState::YetToAct));
    assert!(PlayerState::Bet(300).can_given(&PlayerState::Bet(600))); // Updated to deal with Pluribus
    assert!(PlayerState::Bet(200).can_given(&PlayerState::Bet(300)));
    assert!(!PlayerState::Bet(100).can_given(&PlayerState::Call(100)));
    assert!(!PlayerState::Bet(200).can_given(&PlayerState::Raise(200)));

    assert!(PlayerState::Call(200).can_given(&PlayerState::Fold));
    assert!(PlayerState::Call(100).can_given(&PlayerState::Call(200)));
    assert!(PlayerState::Call(200).can_given(&PlayerState::ReRaise(300)));
    assert!(PlayerState::Call(100).can_given(&PlayerState::AllIn(500)));
    assert!(PlayerState::Call(100).can_given(&PlayerState::Fold));
    assert!(PlayerState::Call(100).can_given(&PlayerState::Raise(200)));

    assert!(PlayerState::Raise(200).can_given(&PlayerState::Fold));
    assert!(PlayerState::Raise(200).can_given(&PlayerState::Call(300)));
    assert!(PlayerState::Raise(200).can_given(&PlayerState::ReRaise(300)));
    assert!(PlayerState::Raise(200).can_given(&PlayerState::AllIn(300)));
    assert!(!PlayerState::Raise(200).can_given(&PlayerState::Bet(100)));
    assert!(!PlayerState::Raise(200).can_given(&PlayerState::ReRaise(100)));

    assert!(PlayerState::ReRaise(200).can_given(&PlayerState::Fold));
    assert!(PlayerState::ReRaise(200).can_given(&PlayerState::Call(300)));
    assert!(PlayerState::ReRaise(200).can_given(&PlayerState::ReRaise(300)));
    assert!(PlayerState::ReRaise(200).can_given(&PlayerState::AllIn(300)));
    assert!(PlayerState::ReRaise(200).can_given(&PlayerState::Raise(300)));
    assert!(!PlayerState::ReRaise(200).can_given(&PlayerState::Bet(100)));

    assert!(PlayerState::AllIn(1000).can_given(&PlayerState::Showdown(1000)));

    assert!(!PlayerState::Fold.can_given(&PlayerState::Check));
    assert!(!PlayerState::Fold.can_given(&PlayerState::Bet(100)));
    assert!(!PlayerState::Fold.can_given(&PlayerState::Call(100)));
    assert!(!PlayerState::Fold.can_given(&PlayerState::Raise(100)));
    assert!(!PlayerState::Fold.can_given(&PlayerState::ReRaise(100)));
    assert!(!PlayerState::Fold.can_given(&PlayerState::AllIn(100)));
    assert!(!PlayerState::Fold.can_given(&PlayerState::AllIn(100)));
}

#[test]
fn agency__can_given_against__asserter_check() {
    assert!(PlayerState::Check.can_given_against(&PlayerState::Fold, &PlayerState::Bet(50)));
    assert!(PlayerState::Check.can_given_against(&PlayerState::Call(500), &PlayerState::Fold));
    assert!(PlayerState::Check.can_given_against(&PlayerState::Call(500), &PlayerState::YetToAct));
    assert!(PlayerState::Check.can_given_against(&PlayerState::Call(500), &PlayerState::Check));
    assert!(PlayerState::Check.can_given_against(&PlayerState::Call(500), &PlayerState::Bet(50)));
    assert!(PlayerState::Check.can_given_against(&PlayerState::Call(500), &PlayerState::Raise(50)));
    assert!(PlayerState::Check.can_given_against(&PlayerState::Call(500), &PlayerState::ReRaise(50)));
    assert!(PlayerState::Check.can_given_against(&PlayerState::Call(500), &PlayerState::AllIn(50)));
    assert!(PlayerState::Check.can_given_against(&PlayerState::Raise(500), &PlayerState::Check));
    assert!(PlayerState::Check.can_given_against(&PlayerState::Raise(500), &PlayerState::Bet(50)));
    assert!(PlayerState::Check.can_given_against(&PlayerState::ReRaise(500), &PlayerState::Check));
    assert!(PlayerState::Check.can_given_against(&PlayerState::ReRaise(500), &PlayerState::Bet(50)));
    assert!(PlayerState::Check.can_given_against(&PlayerState::ReRaise(500), &PlayerState::Raise(50)));
    assert!(PlayerState::Check.can_given_against(&PlayerState::AllIn(500), &PlayerState::Check));
    assert!(PlayerState::Check.can_given_against(&PlayerState::AllIn(500), &PlayerState::Bet(50)));
    assert!(PlayerState::Check.can_given_against(&PlayerState::AllIn(500), &PlayerState::Raise(50)));
    assert!(PlayerState::Check.can_given_against(&PlayerState::AllIn(500), &PlayerState::ReRaise(50)));
    assert!(PlayerState::Check.can_given_against(&PlayerState::AllIn(500), &PlayerState::AllIn(50)));

    assert!(!PlayerState::Check.can_given_against(&PlayerState::Check, &PlayerState::Check));
    // You can't bet if you're already bet, only call, raise, re-raise or all-in.
    // UPDATE: This is no longer true because of `Pluribus`.
    assert!(PlayerState::Check.can_given_against(&PlayerState::Bet(500), &PlayerState::Check));
    assert!(PlayerState::Check.can_given_against(&PlayerState::Bet(500), &PlayerState::Bet(400)));
    assert!(!PlayerState::Check.can_given_against(&PlayerState::Raise(500), &PlayerState::Raise(500)));
    assert!(!PlayerState::Check.can_given_against(&PlayerState::Raise(500), &PlayerState::ReRaise(500)));
}

#[test]
fn agency__can_given_against__asserter_bet() {
    assert!(PlayerState::Bet(100).can_given_against(&PlayerState::Fold, &PlayerState::Bet(50)));
    assert!(PlayerState::Bet(100).can_given_against(&PlayerState::Call(500), &PlayerState::Fold));
    assert!(PlayerState::Bet(100).can_given_against(&PlayerState::Call(500), &PlayerState::YetToAct));
    assert!(PlayerState::Bet(100).can_given_against(&PlayerState::Call(500), &PlayerState::Check));
    assert!(PlayerState::Bet(100).can_given_against(&PlayerState::Call(500), &PlayerState::Bet(50)));
    assert!(PlayerState::Bet(100).can_given_against(&PlayerState::Call(500), &PlayerState::Raise(50)));
    assert!(PlayerState::Bet(100).can_given_against(&PlayerState::Call(500), &PlayerState::ReRaise(50)));
    assert!(PlayerState::Bet(100).can_given_against(&PlayerState::Call(500), &PlayerState::AllIn(50)));
    assert!(PlayerState::Bet(100).can_given_against(&PlayerState::Raise(500), &PlayerState::Check));
    assert!(PlayerState::Bet(100).can_given_against(&PlayerState::Raise(500), &PlayerState::Bet(50)));
    assert!(PlayerState::Bet(100).can_given_against(&PlayerState::ReRaise(500), &PlayerState::Check));
    assert!(PlayerState::Bet(100).can_given_against(&PlayerState::ReRaise(500), &PlayerState::Bet(50)));
    assert!(PlayerState::Bet(100).can_given_against(&PlayerState::ReRaise(500), &PlayerState::Raise(50)));
    assert!(PlayerState::Bet(100).can_given_against(&PlayerState::AllIn(500), &PlayerState::Check));
    assert!(PlayerState::Bet(100).can_given_against(&PlayerState::AllIn(500), &PlayerState::Bet(50)));
    assert!(PlayerState::Bet(100).can_given_against(&PlayerState::AllIn(500), &PlayerState::Raise(50)));
    assert!(PlayerState::Bet(100).can_given_against(&PlayerState::AllIn(500), &PlayerState::ReRaise(50)));
    assert!(PlayerState::Bet(100).can_given_against(&PlayerState::AllIn(500), &PlayerState::AllIn(50)));

    assert!(!PlayerState::Bet(100).can_given_against(&PlayerState::Check, &PlayerState::Check));
    // You can't bet if you're already bet, only call, raise, re-raise or all-in.
    // UPDATE: This is no longer true because of `Pluribus`.
    assert!(PlayerState::Bet(100).can_given_against(&PlayerState::Bet(500), &PlayerState::Check));
    assert!(PlayerState::Bet(100).can_given_against(&PlayerState::Bet(500), &PlayerState::Bet(400)));
    assert!(!PlayerState::Bet(100).can_given_against(&PlayerState::Raise(500), &PlayerState::Raise(500)));
    assert!(!PlayerState::Bet(100).can_given_against(&PlayerState::Raise(500), &PlayerState::ReRaise(500)));
}

#[test]
fn agency__can_given_against() {
    let state = PlayerState::YetToAct;

    assert!(state.can_given_against(&PlayerState::Check, &PlayerState::Fold));
    assert!(state.can_given_against(&PlayerState::Check, &PlayerState::YetToAct));
    assert!(state.can_given_against(&PlayerState::Check, &PlayerState::Check));
    // Player is already YetToAct, has to do something.
    assert!(!state.can_given_against(&PlayerState::YetToAct, &PlayerState::Check));
    assert!(!state.can_given_against(&PlayerState::Check, &PlayerState::Blind(50)));

    let state = PlayerState::Raise(300);
    assert!(state.can_given_against(&PlayerState::Fold, &PlayerState::Bet(50)));
    assert!(state.can_given_against(&PlayerState::Call(500), &PlayerState::Fold));
    assert!(state.can_given_against(&PlayerState::Call(500), &PlayerState::YetToAct));
    assert!(state.can_given_against(&PlayerState::Call(500), &PlayerState::Check));
    assert!(state.can_given_against(&PlayerState::Call(500), &PlayerState::Bet(50)));
    assert!(state.can_given_against(&PlayerState::Call(500), &PlayerState::Raise(50)));
    assert!(state.can_given_against(&PlayerState::Call(500), &PlayerState::ReRaise(50)));
    assert!(state.can_given_against(&PlayerState::Call(500), &PlayerState::AllIn(50)));
    assert!(state.can_given_against(&PlayerState::ReRaise(500), &PlayerState::Check));
    assert!(state.can_given_against(&PlayerState::ReRaise(500), &PlayerState::Bet(50)));
    assert!(state.can_given_against(&PlayerState::ReRaise(500), &PlayerState::Raise(50)));
    assert!(state.can_given_against(&PlayerState::ReRaise(500), &PlayerState::ReRaise(450)));
    assert!(state.can_given_against(&PlayerState::AllIn(500), &PlayerState::Check));
    assert!(state.can_given_against(&PlayerState::AllIn(500), &PlayerState::Bet(50)));
    assert!(state.can_given_against(&PlayerState::AllIn(500), &PlayerState::Raise(50)));
    assert!(state.can_given_against(&PlayerState::AllIn(500), &PlayerState::ReRaise(50)));
    assert!(state.can_given_against(&PlayerState::AllIn(500), &PlayerState::AllIn(50)));

    assert!(!state.can_given_against(&PlayerState::Check, &PlayerState::Check));
    // You can't bet if you're already bet, only call, raise, re-raise or all-in.
    // UPDATE: This is no longer true because of `Pluribus`.
    assert!(state.can_given_against(&PlayerState::Bet(500), &PlayerState::Check));
    assert!(state.can_given_against(&PlayerState::Bet(500), &PlayerState::Bet(400)));
    assert!(state.can_given_against(&PlayerState::Raise(500), &PlayerState::Check));
    assert!(state.can_given_against(&PlayerState::Raise(500), &PlayerState::Bet(50)));
    assert!(!state.can_given_against(&PlayerState::Raise(500), &PlayerState::Raise(500)));
    assert!(!state.can_given_against(&PlayerState::Raise(500), &PlayerState::ReRaise(500)));

    let state = PlayerState::ReRaise(300);
    assert!(state.can_given_against(&PlayerState::Fold, &PlayerState::Bet(50)));
    assert!(state.can_given_against(&PlayerState::Call(500), &PlayerState::Fold));
    assert!(state.can_given_against(&PlayerState::Call(500), &PlayerState::YetToAct));
    assert!(state.can_given_against(&PlayerState::Call(500), &PlayerState::Check));
    assert!(state.can_given_against(&PlayerState::Call(500), &PlayerState::Bet(50)));
    assert!(state.can_given_against(&PlayerState::Call(500), &PlayerState::Raise(50)));
    assert!(state.can_given_against(&PlayerState::Call(500), &PlayerState::ReRaise(50)));
    assert!(state.can_given_against(&PlayerState::Call(500), &PlayerState::AllIn(50)));
    assert!(state.can_given_against(&PlayerState::ReRaise(500), &PlayerState::Check));
    assert!(state.can_given_against(&PlayerState::ReRaise(500), &PlayerState::Bet(50)));
    assert!(state.can_given_against(&PlayerState::ReRaise(500), &PlayerState::Raise(50)));
    assert!(state.can_given_against(&PlayerState::ReRaise(500), &PlayerState::ReRaise(450)));
    assert!(state.can_given_against(&PlayerState::AllIn(500), &PlayerState::Check));
    assert!(state.can_given_against(&PlayerState::AllIn(500), &PlayerState::Bet(50)));
    assert!(state.can_given_against(&PlayerState::AllIn(500), &PlayerState::Raise(50)));
    assert!(state.can_given_against(&PlayerState::AllIn(500), &PlayerState::ReRaise(50)));
    assert!(state.can_given_against(&PlayerState::AllIn(500), &PlayerState::AllIn(50)));

    assert!(!state.can_given_against(&PlayerState::Check, &PlayerState::Check));
    // You can't bet if you're already bet, only call, raise, re-raise or all-in.
    // No longer true. Relaxed things to deal with `Pluribus`.
    assert!(state.can_given_against(&PlayerState::Bet(500), &PlayerState::Check));
    assert!(state.can_given_against(&PlayerState::Bet(500), &PlayerState::Bet(400)));
    assert!(state.can_given_against(&PlayerState::Raise(500), &PlayerState::Check));
    assert!(state.can_given_against(&PlayerState::Raise(500), &PlayerState::Bet(50)));
    assert!(!state.can_given_against(&PlayerState::Raise(500), &PlayerState::Raise(500)));
    assert!(!state.can_given_against(&PlayerState::Raise(500), &PlayerState::ReRaise(500)));

    let state = PlayerState::AllIn(1000);
    assert!(!state.can_given_against(&PlayerState::Fold, &PlayerState::Bet(50)));
    assert!(!state.can_given_against(&PlayerState::Call(500), &PlayerState::Fold));
    assert!(!state.can_given_against(&PlayerState::Call(500), &PlayerState::YetToAct));
    assert!(!state.can_given_against(&PlayerState::Call(500), &PlayerState::Check));
    assert!(!state.can_given_against(&PlayerState::Call(500), &PlayerState::Bet(50)));
    assert!(!state.can_given_against(&PlayerState::Call(500), &PlayerState::Raise(50)));
    assert!(!state.can_given_against(&PlayerState::Call(500), &PlayerState::ReRaise(50)));
    assert!(!state.can_given_against(&PlayerState::Call(500), &PlayerState::AllIn(50)));
    assert!(!state.can_given_against(&PlayerState::Raise(500), &PlayerState::Check));
    assert!(!state.can_given_against(&PlayerState::Raise(500), &PlayerState::Bet(50)));
    assert!(!state.can_given_against(&PlayerState::ReRaise(500), &PlayerState::Check));
    assert!(!state.can_given_against(&PlayerState::ReRaise(500), &PlayerState::Bet(50)));
    assert!(!state.can_given_against(&PlayerState::ReRaise(500), &PlayerState::Raise(50)));
    assert!(!state.can_given_against(&PlayerState::AllIn(500), &PlayerState::Check));
    assert!(!state.can_given_against(&PlayerState::AllIn(500), &PlayerState::Bet(50)));
    assert!(!state.can_given_against(&PlayerState::AllIn(500), &PlayerState::Raise(50)));
    assert!(!state.can_given_against(&PlayerState::AllIn(500), &PlayerState::ReRaise(50)));
    assert!(!state.can_given_against(&PlayerState::AllIn(500), &PlayerState::AllIn(50)));
    assert!(!state.can_given_against(&PlayerState::Check, &PlayerState::Check));
    // You can't bet if you're already bet, only call, raise, re-raise or all-in.
    assert!(!state.can_given_against(&PlayerState::Bet(500), &PlayerState::Check));
    assert!(!state.can_given_against(&PlayerState::Bet(500), &PlayerState::Bet(400)));
    assert!(!state.can_given_against(&PlayerState::Raise(500), &PlayerState::Raise(500)));
    assert!(!state.can_given_against(&PlayerState::Raise(500), &PlayerState::ReRaise(500)));
}

#[test]
fn can_act_after() {
    // Out of the hand
    assert!(!PlayerState::Fold.can_act_after(&PlayerState::Blind(100)));
    assert!(!PlayerState::Out.can_act_after(&PlayerState::Blind(100)));

    // Vs blind
    assert!(PlayerState::Blind(50).can_act_after(&PlayerState::Blind(50)));
    assert!(PlayerState::Blind(50).can_act_after(&PlayerState::Blind(100)));
    assert!(!PlayerState::Blind(100).can_act_after(&PlayerState::Blind(50)));

    // Yet to act
    assert!(PlayerState::YetToAct.can_act_after(&PlayerState::YetToAct));
    assert!(PlayerState::YetToAct.can_act_after(&PlayerState::Check));
    assert!(PlayerState::YetToAct.can_act_after(&PlayerState::Bet(100)));
    assert!(PlayerState::YetToAct.can_act_after(&PlayerState::AllIn(100)));
    assert!(PlayerState::YetToAct.can_act_after(&PlayerState::Fold));

    // Check
    assert!(PlayerState::Check.can_act_after(&PlayerState::Check));
    assert!(!PlayerState::Check.can_act_after(&PlayerState::Blind(50)));
    assert!(!PlayerState::Check.can_act_after(&PlayerState::Bet(50)));

    assert!(!PlayerState::AllIn(50).can_act_after(&PlayerState::Blind(100)));
    assert!(!PlayerState::AllIn(50).can_act_after(&PlayerState::Bet(25)));
    assert!(!PlayerState::AllIn(50).can_act_after(&PlayerState::Raise(2500)));

    assert!(!PlayerState::Bet(500).can_act_after(&PlayerState::Bet(100)));
    assert!(PlayerState::Bet(150).can_act_after(&PlayerState::Blind(100)));
    assert!(PlayerState::Bet(500).can_act_after(&PlayerState::AllIn(100)));
    assert!(PlayerState::Bet(500).can_act_after(&PlayerState::Call(100)));
    assert!(!PlayerState::Bet(500).can_act_after(&PlayerState::Call(500)));
    assert!(!PlayerState::Bet(500).can_act_after(&PlayerState::Bet(500)));
    assert!(!PlayerState::Bet(50).can_act_after(&PlayerState::Blind(100)));
    assert!(!PlayerState::Bet(50).can_act_after(&PlayerState::AllIn(100)));
    assert!(!PlayerState::Bet(150).can_act_after(&PlayerState::Raise(100)));
    assert!(!PlayerState::Bet(400).can_act_after(&PlayerState::ReRaise(200)));

    assert!(PlayerState::Raise(150).can_act_after(&PlayerState::Blind(100)));
    assert!(PlayerState::Raise(500).can_act_after(&PlayerState::Bet(100)));
    assert!(PlayerState::Raise(500).can_act_after(&PlayerState::AllIn(100)));
    assert!(!PlayerState::Raise(500).can_act_after(&PlayerState::Bet(500)));
    assert!(!PlayerState::Raise(500).can_act_after(&PlayerState::ReRaise(500)));
    assert!(!PlayerState::Raise(1000).can_act_after(&PlayerState::ReRaise(500)));
    assert!(!PlayerState::Raise(50).can_act_after(&PlayerState::Blind(100)));
    assert!(!PlayerState::Raise(50).can_act_after(&PlayerState::AllIn(100)));

    assert!(PlayerState::ReRaise(500).can_act_after(&PlayerState::Call(100)));
    assert!(PlayerState::ReRaise(150).can_act_after(&PlayerState::Blind(100)));
    assert!(PlayerState::ReRaise(500).can_act_after(&PlayerState::Bet(100)));
    assert!(PlayerState::ReRaise(500).can_act_after(&PlayerState::Raise(200)));
    assert!(PlayerState::ReRaise(500).can_act_after(&PlayerState::AllIn(100)));

    assert!(!PlayerState::ReRaise(50).can_act_after(&PlayerState::Call(100)));
    assert!(!PlayerState::ReRaise(50).can_act_after(&PlayerState::Blind(100)));
    assert!(!PlayerState::ReRaise(50).can_act_after(&PlayerState::Bet(100)));
    assert!(!PlayerState::ReRaise(50).can_act_after(&PlayerState::Raise(200)));
    assert!(!PlayerState::ReRaise(50).can_act_after(&PlayerState::AllIn(100)));
}

#[test]
fn set() {
    assert_eq!(
        PlayerStateCell::new(PlayerState::YetToAct).set(PlayerState::Bet(100)),
        Some(PlayerState::Bet(100))
    );
    assert_eq!(
        PlayerStateCell::new(PlayerState::YetToAct).set(PlayerState::Check),
        Some(PlayerState::Check)
    );
    assert_eq!(
        PlayerStateCell::new(PlayerState::YetToAct).set(PlayerState::Bet(300)),
        Some(PlayerState::Bet(300))
    );
    assert_eq!(
        PlayerStateCell::new(PlayerState::YetToAct).set(PlayerState::Raise(300)),
        Some(PlayerState::Raise(300))
    );

    assert_eq!(
        PlayerStateCell::new(PlayerState::Blind(100)).set(PlayerState::Check),
        Some(PlayerState::Check)
    );
}

#[test]
fn partial_eq_distinguishes_variants() {
    // assert_eq!(PlayerState::Bet(100), PlayerState::Call(100));
    assert_eq!(PlayerState::Bet(100), PlayerState::Bet(100));
    assert_eq!(PlayerState::YetToAct, PlayerState::YetToAct);
    // assert_eq!(PlayerState::YetToAct, PlayerState::Check);

    assert_ne!(PlayerState::Raise(200), PlayerState::ReRaise(300));
}

#[test]
fn ord_compares_by_variant_then_amount() {
    // assert_eq!(PlayerState::YetToAct, PlayerState::Check);
    // assert_eq!(PlayerState::Fold, PlayerState::Out);
    // assert_eq!(PlayerState::Bet(100), PlayerState::Call(100));
    // assert_eq!(PlayerState::Raise(200), PlayerState::ReRaise(200));
    assert!(PlayerState::Check < PlayerState::Bet(100));
    assert!(PlayerState::Bet(50) < PlayerState::Bet(100));
    assert!(PlayerState::AllIn(500) > PlayerState::Fold);
}

#[test]
fn partial_ord_matches_ord() {
    let states = vec![
        PlayerState::YetToAct,
        PlayerState::Check,
        PlayerState::Bet(50),
        PlayerState::Bet(100),
        PlayerState::Call(100),
        PlayerState::Fold,
    ];

    for i in 0..states.len() {
        for j in 0..states.len() {
            assert_eq!(states[i].partial_cmp(&states[j]), Some(states[i].amount().cmp(&states[j].amount())));
        }
    }
}

#[test]
fn hash_distinguishes_variants() {
    let bet_hash = calculate_hash(&PlayerState::Bet(100));
    let call_hash = calculate_hash(&PlayerState::Call(100));
    let raise_hash = calculate_hash(&PlayerState::Raise(100));

    assert_ne!(bet_hash, call_hash);
    assert_ne!(bet_hash, raise_hash);
    assert_ne!(call_hash, raise_hash);

    assert_eq!(calculate_hash(&PlayerState::Bet(100)), bet_hash);
}

#[test]
fn hash_distinguishes_amounts() {
    assert_ne!(
        calculate_hash(&PlayerState::Bet(100)),
        calculate_hash(&PlayerState::Bet(200))
    );
}

