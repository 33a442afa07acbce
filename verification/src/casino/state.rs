//! What a player just did in the current hand, and the rules that say which
//! state may follow which.
use vstd::prelude::*;

use crate::text::{decimal, push_decimal};

verus! {

/// What a player just did. A check carries no amount; every wagering state
/// carries the chips it stands for.
#[derive(Clone, Copy, Debug, PartialEq, Eq, Structural, Hash)]
pub enum PlayerState {
    /// Seated and ready to be dealt into the next hand.
    Ready,
    /// In the hand and has not acted in the current betting round.
    YetToAct,
    /// Passed without adding chips.
    Check,
    /// Posted a blind.
    Blind(usize),
    /// Made the first voluntary wager of the round.
    Bet(usize),
    /// Matched the amount required to continue.
    Call(usize),
    /// Increased the wager.
    Raise(usize),
    /// Raised again after a raise.
    ReRaise(usize),
    /// Committed the whole stack.
    AllIn(usize),
    /// Reached showdown with this amount committed.
    Showdown(usize),
    /// Gave up the hand.
    Fold,
    /// Not taking part in the hand.
    Out,
}

impl Default for PlayerState {
    fn default() -> (s: PlayerState)
        ensures
            s == PlayerState::Out,
    {
        PlayerState::Out
    }
}

impl PlayerState {
    /// The chips a state stands for; zero for the states that carry none.
    #[verifier::allow_in_spec]
    pub fn amount(&self) -> usize
        returns
            (match *self {
                PlayerState::Blind(a) => a,
                PlayerState::Bet(a) => a,
                PlayerState::Call(a) => a,
                PlayerState::Raise(a) => a,
                PlayerState::ReRaise(a) => a,
                PlayerState::AllIn(a) => a,
                PlayerState::Showdown(a) => a,
                _ => 0usize,
            }),
    {
        match *self {
            PlayerState::Blind(a)
            | PlayerState::Bet(a)
            | PlayerState::Call(a)
            | PlayerState::Raise(a)
            | PlayerState::ReRaise(a)
            | PlayerState::AllIn(a)
            | PlayerState::Showdown(a) => a,
            _ => 0,
        }
    }

    /// Still contesting the hand: neither folded, out, nor merely ready.
    #[verifier::allow_in_spec]
    pub fn is_active(&self) -> bool
        returns
            !(*self is Fold || *self is Out || *self is Ready),
    {
        !matches!(*self, PlayerState::Fold | PlayerState::Out | PlayerState::Ready)
    }

    #[verifier::allow_in_spec]
    pub fn is_all_in(&self) -> bool
        returns
            *self is AllIn,
    {
        matches!(*self, PlayerState::AllIn(_))
    }

    /// Any state that put chips in: blind, bet, call, raise, re-raise, all-in.
    #[verifier::allow_in_spec]
    pub fn is_bet(&self) -> bool
        returns
            *self is Blind || *self is Bet || *self is Call || *self is Raise || *self is ReRaise
                || *self is AllIn,
    {
        matches!(
            *self,
            PlayerState::Blind(_)
                | PlayerState::Bet(_)
                | PlayerState::Call(_)
                | PlayerState::Raise(_)
                | PlayerState::ReRaise(_)
                | PlayerState::AllIn(_)
        )
    }

    #[verifier::allow_in_spec]
    pub fn is_blind(&self) -> bool
        returns
            *self is Blind,
    {
        matches!(*self, PlayerState::Blind(_))
    }

    #[verifier::allow_in_spec]
    pub fn is_call(&self) -> bool
        returns
            *self is Call,
    {
        matches!(*self, PlayerState::Call(_))
    }

    #[verifier::allow_in_spec]
    pub fn is_check(&self) -> bool
        returns
            *self is Check,
    {
        matches!(*self, PlayerState::Check)
    }

    #[verifier::allow_in_spec]
    pub fn is_fold(&self) -> bool
        returns
            *self is Fold,
    {
        matches!(*self, PlayerState::Fold)
    }

    /// Dealt into the hand and not folded (all-in players are in the hand).
    #[verifier::allow_in_spec]
    pub fn is_in_hand(&self) -> bool
        returns
            !(*self is Fold || *self is Out),
    {
        !matches!(*self, PlayerState::Fold | PlayerState::Out)
    }

    #[verifier::allow_in_spec]
    pub fn is_opener(&self) -> bool
        returns
            *self is Bet || *self is Call,
    {
        matches!(*self, PlayerState::Bet(_) | PlayerState::Call(_))
    }

    #[verifier::allow_in_spec]
    pub fn is_out(&self) -> bool
        returns
            *self is Out,
    {
        matches!(*self, PlayerState::Out)
    }

    #[verifier::allow_in_spec]
    pub fn is_ready(&self) -> bool
        returns
            *self is Ready,
    {
        matches!(*self, PlayerState::Ready)
    }

    #[verifier::allow_in_spec]
    pub fn is_showdown(&self) -> bool
        returns
            *self is Showdown,
    {
        matches!(*self, PlayerState::Showdown(_))
    }

    #[verifier::allow_in_spec]
    pub fn is_yet_to_act(&self) -> bool
        returns
            *self is YetToAct,
    {
        matches!(*self, PlayerState::YetToAct)
    }

    #[verifier::allow_in_spec]
    pub fn is_yet_to_act_or_blind(&self) -> bool
        returns
            *self is YetToAct || *self is Blind,
    {
        matches!(*self, PlayerState::YetToAct | PlayerState::Blind(_))
    }

    pub fn reset(&mut self)
        ensures
            *final(self) == PlayerState::YetToAct,
    {
        *self = PlayerState::YetToAct;
    }

    /// May a player in this state act after another player reached `other`?
    pub open spec fn acts_after(self, other: PlayerState) -> bool {
        if !self.is_active() || self.is_all_in() {
            false
        } else if other.is_blind() && self is Check {
            // Nobody checks into a live blind.
            false
        } else if other.is_blind() && self.is_blind() {
            // The smaller blind acts first.
            self.amount() <= other.amount()
        } else if self is YetToAct {
            true
        } else if self is Check {
            other is Check
        } else if self is Bet {
            !(other is Bet || other is Raise || other is ReRaise) && self.amount() > other.amount()
        } else if self is Raise {
            !(other is Raise || other is ReRaise) && self.amount() > other.amount()
        } else {
            self.amount() >= other.amount()
        }
    }

    pub fn can_act_after(&self, other: &PlayerState) -> (b: bool)
        ensures
            b == self.acts_after(*other),
    {
        if !self.is_active() || self.is_all_in() {
            return false;
        }
        if other.is_blind() {
            if matches!(*self, PlayerState::Check) {
                return false;
            } else if self.is_blind() {
                return self.amount() <= other.amount();
            }
        }
        match *self {
            PlayerState::YetToAct => true,
            PlayerState::Check => matches!(*other, PlayerState::Check),
            PlayerState::Bet(_) => {
                if matches!(*other, PlayerState::Bet(_) | PlayerState::Raise(_) | PlayerState::ReRaise(_)) {
                    false
                } else {
                    self.amount() > other.amount()
                }
            },
            PlayerState::Raise(_) => {
                if matches!(*other, PlayerState::Raise(_) | PlayerState::ReRaise(_)) {
                    false
                } else {
                    self.amount() > other.amount()
                }
            },
            _ => self.amount() >= other.amount(),
        }
    }

    /// Whether the move from `self` to `next` is one the table lets through:
    /// the last steps of the rule are the table of permitted pairs.
    pub open spec fn permits_pair(self, next: PlayerState) -> bool {
        ||| next is Fold
        ||| self is YetToAct
        ||| self is Blind
        ||| (self is Check && (next is Bet || next is Call || next is Raise || next is ReRaise
            || next is AllIn || next is Showdown))
        ||| (self is Bet && (next is Call || next is Raise || next is ReRaise || next is AllIn
            || next is Showdown))
        ||| (self is Call && (next is Call || next is ReRaise || next is AllIn || next is Showdown))
        ||| (self is Raise && (next is Call || next is ReRaise || next is AllIn || next is Showdown))
        ||| (self is ReRaise && (next is Call || next is ReRaise || next is AllIn
            || next is Showdown))
        ||| (self is AllIn && next is Showdown)
    }

    /// May a player in this state move to `next`?
    pub open spec fn permits(self, next: PlayerState) -> bool {
        if self is Out && (next is Ready || next is YetToAct) {
            true
        } else if self is Ready && next is YetToAct {
            true
        } else if self is YetToAct || next is YetToAct {
            true
        } else if next is Check && (self is Check || self is Fold || next.amount()
            > self.amount()) {
            false
        } else if next is Check && (next.amount() == self.amount() || self is Blind) {
            true
        } else if self.is_bet() && next.is_bet() && next.amount() > self.amount() {
            true
        } else if next is Showdown {
            true
        } else if next.amount() <= self.amount() && next.is_active() {
            false
        } else {
            self.permits_pair(next)
        }
    }

    /// Still able to act: in the hand and not all-in.
    #[verifier::allow_in_spec]
    pub fn can_act(&self) -> bool
        returns
            self.is_active() && !self.is_all_in(),
    {
        self.is_active() && !self.is_all_in()
    }

    pub fn can_given(&self, next: &PlayerState) -> (b: bool)
        ensures
            b == self.permits(*next),
    {
        if self.is_out() && matches!(*next, PlayerState::Ready | PlayerState::YetToAct) {
            return true;
        }
        if self.is_ready() && next.is_yet_to_act() {
            return true;
        }
        if self.is_yet_to_act() || next.is_yet_to_act() {
            return true;
        }
        if next.is_check() {
            if self.is_check() || self.is_fold() || next.amount() > self.amount() {
                return false;
            }
            if next.amount() == self.amount() || self.is_blind() {
                return true;
            }
        }
        if self.is_bet() && next.is_bet() && next.amount() > self.amount() {
            return true;
        }
        if next.is_showdown() {
            return true;
        }
        if next.amount() <= self.amount() && next.is_active() {
            return false;
        }
        match (*self, *next) {
            (_, PlayerState::Fold) => true,
            (PlayerState::YetToAct, _) => true,
            (PlayerState::Blind(_), _) => true,
            (PlayerState::Check, n) => matches!(
                n,
                PlayerState::Bet(_) | PlayerState::Call(_) | PlayerState::Raise(_)
                    | PlayerState::ReRaise(_) | PlayerState::AllIn(_) | PlayerState::Showdown(_)
            ),
            (PlayerState::Bet(_), n) => matches!(
                n,
                PlayerState::Call(_) | PlayerState::Raise(_) | PlayerState::ReRaise(_)
                    | PlayerState::AllIn(_) | PlayerState::Showdown(_)
            ),
            (PlayerState::Call(_), n) | (PlayerState::Raise(_), n) | (PlayerState::ReRaise(_), n) =>
                matches!(
                n,
                PlayerState::Call(_) | PlayerState::ReRaise(_) | PlayerState::AllIn(_)
                    | PlayerState::Showdown(_)
            ),
            (PlayerState::AllIn(_), n) => matches!(n, PlayerState::Showdown(_)),
            _ => false,
        }
    }

    /// The pairs (`next`, `other`) for which acting `next` against a player
    /// who reached `other` is allowed, once the amounts are in order.
    pub open spec fn answers(next: PlayerState, other: PlayerState) -> bool {
        ||| other is YetToAct
        ||| (next is Check && other is Check)
        ||| (next is Call && (other is Check || other is Bet || other is Raise || other is ReRaise
            || other is AllIn))
        ||| (next is Bet && (other is Check || other is Bet || other is Raise || other is ReRaise
            || other is AllIn))
        ||| (next is Raise && (other is Check || other is Bet))
        ||| (next is ReRaise && (other is Bet || other is Check || other is Raise
            || other is ReRaise))
        ||| next is AllIn
        ||| next is Showdown
        ||| next is Blind
    }

    /// May a player in this state move to `next` when the player to beat
    /// reached `other`?
    pub open spec fn permits_against(self, next: PlayerState, other: PlayerState) -> bool {
        if !self.permits(next) || self.is_all_in() {
            false
        } else if !other.is_active() || next is Fold {
            true
        } else if next.amount() < other.amount() {
            false
        } else {
            PlayerState::answers(next, other)
        }
    }

    pub fn can_given_against(&self, next: &PlayerState, other: &PlayerState) -> (b: bool)
        ensures
            b == self.permits_against(*next, *other),
    {
        if !self.can_given(next) {
            return false;
        }
        if self.is_all_in() {
            return false;
        }
        if !other.is_active() || next.is_fold() {
            return true;
        }
        if next.amount() < other.amount() {
            return false;
        }
        match (*next, *other) {
            (_, PlayerState::YetToAct) => true,
            (PlayerState::Check, o) => matches!(o, PlayerState::Check),
            (PlayerState::Call(_), o) | (PlayerState::Bet(_), o) => matches!(
                o,
                PlayerState::Check | PlayerState::Bet(_) | PlayerState::Raise(_)
                    | PlayerState::ReRaise(_) | PlayerState::AllIn(_)
            ),
            (PlayerState::Raise(_), o) => matches!(o, PlayerState::Check | PlayerState::Bet(_)),
            (PlayerState::ReRaise(_), o) => matches!(
                o,
                PlayerState::Bet(_) | PlayerState::Check | PlayerState::Raise(_)
                    | PlayerState::ReRaise(_)
            ),
            (PlayerState::AllIn(_), _) => true,
            (PlayerState::Showdown(_), _) => true,
            (PlayerState::Blind(_), _) => true,
            _ => false,
        }
    }
}

/// A player's state behind a settable slot. `set` only accepts a state that
/// [`PlayerState::can_given`] allows from the current one.
#[derive(Clone, Copy, Debug, PartialEq, Eq)]
pub struct PlayerStateCell(pub PlayerState);

impl Default for PlayerStateCell {
    fn default() -> (c: PlayerStateCell)
        ensures
            c.0 == PlayerState::Out,
    {
        PlayerStateCell(PlayerState::Out)
    }
}

impl PlayerStateCell {
    pub fn new(state: PlayerState) -> (c: Self)
        ensures
            c.0 == state,
    {
        PlayerStateCell(state)
    }

    pub fn get(&self) -> (s: PlayerState)
        ensures
            s == self.0,
    {
        self.0
    }

    pub fn can(&self, next: &PlayerState) -> (b: bool)
        ensures
            b == self.0.permits(*next),
    {
        self.0.can_given(next)
    }

    pub fn can_act(&self) -> (b: bool)
        ensures
            b == self.0.can_act(),
    {
        self.0.can_act()
    }

    pub fn can_given(&self, next: &PlayerState) -> (b: bool)
        ensures
            b == self.0.permits(*next),
    {
        self.0.can_given(next)
    }

    pub fn can_given_against(&self, next: &PlayerState, other: &PlayerState) -> (b: bool)
        ensures
            b == self.0.permits_against(*next, *other),
    {
        self.0.can_given_against(next, other)
    }

    pub fn can_act_after_played(&self, other: &PlayerStateCell) -> (b: bool)
        ensures
            b == self.0.acts_after(other.0),
    {
        self.0.can_act_after(&other.0)
    }

    pub fn is_active(&self) -> (b: bool)
        ensures
            b == self.0.is_active(),
    {
        self.0.is_active()
    }

    pub fn is_all_in(&self) -> (b: bool)
        ensures
            b == self.0.is_all_in(),
    {
        self.0.is_all_in()
    }

    pub fn is_blind(&self) -> (b: bool)
        ensures
            b == self.0.is_blind(),
    {
        self.0.is_blind()
    }

    pub fn is_call(&self) -> (b: bool)
        ensures
            b == self.0.is_call(),
    {
        self.0.is_call()
    }

    pub fn is_check(&self) -> (b: bool)
        ensures
            b == self.0.is_check(),
    {
        self.0.is_check()
    }

    pub fn is_in_hand(&self) -> (b: bool)
        ensures
            b == self.0.is_in_hand(),
    {
        self.0.is_in_hand()
    }

    pub fn is_out(&self) -> (b: bool)
        ensures
            b == self.0.is_out(),
    {
        self.0.is_out()
    }

    pub fn is_ready(&self) -> (b: bool)
        ensures
            b == self.0.is_ready(),
    {
        self.0.is_ready()
    }

    pub fn is_yet_to_act(&self) -> (b: bool)
        ensures
            b == self.0.is_yet_to_act(),
    {
        self.0.is_yet_to_act()
    }

    pub fn is_yet_to_act_or_blind(&self) -> (b: bool)
        ensures
            b == self.0.is_yet_to_act_or_blind(),
    {
        self.0.is_yet_to_act_or_blind()
    }

    pub fn reset(&mut self)
        ensures
            final(self).0 == PlayerState::YetToAct,
    {
        self.0 = PlayerState::YetToAct;
    }

    /// Moves to `state` when the current state permits it and returns it;
    /// otherwise leaves the cell as it was and returns `None`.
    pub fn set(&mut self, state: PlayerState) -> (r: Option<PlayerState>)
        ensures
            old(self).0.permits(state) ==> r == Some(state) && final(self).0 == state,
            !old(self).0.permits(state) ==> r is None && final(self).0 == old(self).0,
    {
        if self.can(&state) {
            self.0 = state;
            Some(state)
        } else {
            None
        }
    }
}


/// The text of a player state.
pub open spec fn state_text(s: PlayerState) -> Seq<char> {
    match s {
        PlayerState::Ready => "Ready for next hand"@,
        PlayerState::YetToAct => "Yet to act"@,
        PlayerState::Check => "Check"@,
        PlayerState::Blind(a) => "Blind "@ + decimal(a as nat),
        PlayerState::Bet(a) => "Bet "@ + decimal(a as nat),
        PlayerState::Call(a) => "Call "@ + decimal(a as nat),
        PlayerState::Raise(a) => "Raise to "@ + decimal(a as nat),
        PlayerState::ReRaise(a) => "Re-raise to "@ + decimal(a as nat),
        PlayerState::AllIn(a) => "All-in with "@ + decimal(a as nat),
        PlayerState::Showdown(a) => "Showdown with "@ + decimal(a as nat),
        PlayerState::Fold => "Fold"@,
        PlayerState::Out => "Out"@,
    }
}

impl PlayerState {
    /// Appends the text of the state.
    pub fn push_text(&self, s: &mut String)
        ensures
            final(s)@ == old(s)@ + state_text(*self),
    {
        match self {
            PlayerState::Ready => {
                s.append("Ready for next hand");
            },
            PlayerState::YetToAct => {
                s.append("Yet to act");
            },
            PlayerState::Check => {
                s.append("Check");
            },
            PlayerState::Blind(a) => {
                s.append("Blind ");
                push_decimal(s, *a);
            },
            PlayerState::Bet(a) => {
                s.append("Bet ");
                push_decimal(s, *a);
            },
            PlayerState::Call(a) => {
                s.append("Call ");
                push_decimal(s, *a);
            },
            PlayerState::Raise(a) => {
                s.append("Raise to ");
                push_decimal(s, *a);
            },
            PlayerState::ReRaise(a) => {
                s.append("Re-raise to ");
                push_decimal(s, *a);
            },
            PlayerState::AllIn(a) => {
                s.append("All-in with ");
                push_decimal(s, *a);
            },
            PlayerState::Showdown(a) => {
                s.append("Showdown with ");
                push_decimal(s, *a);
            },
            PlayerState::Fold => {
                s.append("Fold");
            },
            PlayerState::Out => {
                s.append("Out");
            },
        }
    }

    /// The text of the state.
    pub fn to_string(&self) -> (t: String)
        ensures
            t@ == state_text(*self),
    {
        let mut t = String::new();
        self.push_text(&mut t);
        proof {
            assert(t@ =~= state_text(*self));
        }
        t
    }
}

} // verus!
