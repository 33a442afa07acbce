//! A player at a table: a stack, the bet in front of them this street, the
//! chips committed to the hand so far, and what they last did.
use vstd::prelude::*;

use crate::casino::state::PlayerState;
use crate::error::PKError;

verus! {

/// `Uuid::new_v4().as_u128()` of the `uuid` crate: random bits with the
/// version and variant bits set, so the value is never zero.
#[verifier::external_body]
pub fn new_uuid() -> (id: u128)
    ensures
        id & 0x4000_8000_0000_0000_0000u128 == 0x4000_8000_0000_0000_0000u128,
{
    uuid::Uuid::new_v4().as_u128()
}

/// A fresh random id is never the nil id.
pub proof fn lemma_fresh_id_not_nil(id: u128)
    requires
        id & 0x4000_8000_0000_0000_0000u128 == 0x4000_8000_0000_0000_0000u128,
    ensures
        id != 0,
{
    assert(id & 0x4000_8000_0000_0000_0000u128 == 0x4000_8000_0000_0000_0000u128 ==> id != 0)
        by (bit_vector);
}

#[derive(Clone, Debug, PartialEq, Eq)]
pub struct Player {
    /// The player's id; zero is the nil id of an empty seat.
    pub id: u128,
    pub handle: String,
    /// Chips in the player's stack.
    pub chips: usize,
    /// Chips in front of the player on the current street.
    pub bet: usize,
    /// Chips the player has committed to the current hand.
    pub chips_in_play: usize,
    /// Chips the player has bought in for, in total.
    pub withdrawn: usize,
    pub state: PlayerState,
}

impl Player {
    /// The bookkeeping every action keeps: the bet is part of what the
    /// player committed to the hand, and the stack plus the committed chips
    /// fit in a `usize`.
    pub open spec fn wf(&self) -> bool {
        &&& self.bet <= self.chips_in_play
        &&& self.chips + self.chips_in_play <= usize::MAX
    }

    /// What `is_all_in` answers: an all-in state, or an empty stack with a
    /// bet in front.
    pub open spec fn all_in(&self) -> bool {
        self.state is AllIn || (self.chips == 0 && self.bet > 0)
    }

    /// The chips the player holds, stack and street bet together.
    pub open spec fn holdings(&self) -> nat {
        (self.chips + self.bet) as nat
    }

    /// The outcome of a wager of the kind and amount of `bet_type`, as
    /// `act_bet_internal` decides it.
    pub open spec fn wager_error(&self, bet_type: PlayerState) -> Option<PKError> {
        if bet_type.amount() == 0 {
            Some(PKError::InvalidAction)
        } else if bet_type.amount() > self.chips + self.bet {
            Some(PKError::InsufficientChips)
        } else if !self.state.is_active() {
            Some(PKError::InvalidTableAction)
        } else if bet_type.amount() <= self.bet {
            Some(PKError::InsufficientChips)
        } else {
            None
        }
    }

    /// The player after moving chips for a wager up to `amount`.
    pub open spec fn moved_to(&self, amount: usize) -> Player {
        Player {
            chips: (self.chips - (amount - self.bet)) as usize,
            bet: amount,
            chips_in_play: (self.chips_in_play + (amount - self.bet)) as usize,
            ..*self
        }
    }

    /// The player after an accepted wager of the kind and amount of
    /// `bet_type`: the chips moved, and all-in when the stack is empty.
    pub open spec fn wagered(&self, bet_type: PlayerState) -> Player {
        let moved = self.moved_to(bet_type.amount());
        Player {
            state: if moved.all_in() {
                PlayerState::AllIn(moved.bet)
            } else {
                bet_type
            },
            ..moved
        }
    }

    /// A forced bet of `required` by this player, or of everything the
    /// player holds when that is less: the player after it with the amount
    /// posted, or the refusal (`InsufficientChips` when there is nothing
    /// to post).
    pub open spec fn blind_step(&self, required: usize) -> Result<(Player, usize), PKError> {
        let actual = if required < self.chips + self.bet {
            required
        } else {
            (self.chips + self.bet) as usize
        };
        if actual == 0 {
            Err(PKError::InsufficientChips)
        } else {
            match self.wager_error(PlayerState::Blind(actual)) {
                Some(e) => Err(e),
                None => Ok((self.wagered(PlayerState::Blind(actual)), actual)),
            }
        }
    }

    /// An ante of `amount` posted as dead money: the player after it and
    /// the chips posted, at most the stack; nothing for a player not active.
    pub open spec fn dead_posted(&self, amount: usize) -> (Player, usize) {
        let actual = if amount < self.chips {
            amount
        } else {
            self.chips
        };
        if !self.state.is_active() || actual == 0 {
            (*self, 0usize)
        } else {
            (
                Player {
                    chips: (self.chips - actual) as usize,
                    chips_in_play: (self.chips_in_play + actual) as usize,
                    state: if self.chips == actual {
                        PlayerState::AllIn(self.bet)
                    } else {
                        self.state
                    },
                    ..*self
                },
                actual,
            )
        }
    }

    /// The player after going all-in: the whole stack moved in front.
    pub open spec fn all_in_spec(&self) -> Player {
        let stack = (self.chips + self.bet) as usize;
        Player { state: PlayerState::AllIn(stack), ..self.moved_to(stack) }
    }

    /// What a wager of the kind and amount of `bet_type` does to `before`,
    /// leaving `after` and answering `r`: refused with nothing moved when
    /// `wager_error` names an error; otherwise the difference between the
    /// amount and the bet in front moves from the stack to the bet and to
    /// the chips committed, and the player is left all-in when the stack is
    /// empty, in the state `bet_type` otherwise; an all-in request that
    /// leaves chips behind is refused after the chips moved, the state kept.
    pub open spec fn wager_outcome(
        before: Player,
        bet_type: PlayerState,
        after: Player,
        r: Result<usize, PKError>,
    ) -> bool {
        &&& after.wf()
        &&& after.holdings() == before.holdings()
        &&& before.wager_error(bet_type) matches Some(e) ==> r == Err::<usize, PKError>(e)
            && after == before
        &&& before.wager_error(bet_type) is None ==> {
            let moved = before.moved_to(bet_type.amount());
            &&& after.chips == moved.chips
            &&& after.bet == moved.bet
            &&& after.chips_in_play == moved.chips_in_play
            &&& after.id == before.id && after.handle == before.handle
            &&& after.withdrawn == before.withdrawn
            &&& if moved.all_in() {
                after.state == PlayerState::AllIn(moved.bet) && r == Ok::<usize, PKError>(
                    moved.chips,
                )
            } else if bet_type is AllIn {
                after.state == before.state && r == Err::<usize, PKError>(
                    PKError::InvalidTableAction,
                )
            } else {
                after.state == bet_type && r == Ok::<usize, PKError>(moved.chips)
            }
        }
    }

    pub fn default() -> (p: Player)
        ensures
            p.id == 0,
            p.handle@ == Seq::<char>::empty(),
            p.chips == 0 && p.bet == 0 && p.chips_in_play == 0 && p.withdrawn == 0,
            p.state == PlayerState::Out,
    {
        Player {
            id: 0,
            handle: String::new(),
            chips: 0,
            bet: 0,
            chips_in_play: 0,
            withdrawn: 0,
            state: PlayerState::Out,
        }
    }

    /// A player with a fresh id and no chips, waiting to act.
    pub fn new(handle: String) -> (p: Player)
        ensures
            p.id != 0,
            p.handle == handle,
            p.chips == 0 && p.bet == 0 && p.chips_in_play == 0 && p.withdrawn == 0,
            p.state == PlayerState::YetToAct,
    {
        let id = new_uuid();
        proof {
            lemma_fresh_id_not_nil(id);
        }
        Player { id, handle, chips: 0, bet: 0, chips_in_play: 0, withdrawn: 0, state: PlayerState::YetToAct }
    }

    /// A player with a fresh id who has bought in for `stack`.
    pub fn new_with_chips(handle: String, stack: usize) -> (p: Player)
        ensures
            p.id != 0,
            p.handle == handle,
            p.chips == stack && p.bet == 0 && p.chips_in_play == 0 && p.withdrawn == stack,
            p.state == PlayerState::YetToAct,
    {
        let id = new_uuid();
        proof {
            lemma_fresh_id_not_nil(id);
        }
        Player {
            id,
            handle,
            chips: stack,
            bet: 0,
            chips_in_play: 0,
            withdrawn: stack,
            state: PlayerState::YetToAct,
        }
    }

    /// Buys in for `amount` more chips and returns the new stack.
    pub fn reload(&mut self, amount: usize) -> (n: usize)
        requires
            old(self).chips + amount <= usize::MAX,
            old(self).withdrawn + amount <= usize::MAX,
        ensures
            *final(self) == (Player {
                chips: (old(self).chips + amount) as usize,
                withdrawn: (old(self).withdrawn + amount) as usize,
                ..*old(self)
            }),
            n == final(self).chips,
    {
        if amount > 0 {
            self.chips = self.chips + amount;
            self.withdrawn = self.withdrawn + amount;
        }
        self.chips
    }

    /// Stack and street bet together.
    pub fn total_chip_count(&self) -> (n: usize)
        requires
            self.chips + self.bet <= usize::MAX,
        ensures
            n == self.chips + self.bet,
    {
        self.chips + self.bet
    }

    pub fn is_active(&self) -> (b: bool)
        ensures
            b == self.state.is_active(),
    {
        self.state.is_active()
    }

    pub fn is_all_in(&self) -> (b: bool)
        ensures
            b == self.all_in(),
    {
        self.state.is_all_in() || (self.chips == 0 && self.bet > 0)
    }

    pub fn is_in_hand(&self) -> (b: bool)
        ensures
            b == self.state.is_in_hand(),
    {
        self.state.is_in_hand()
    }

    pub fn is_out(&self) -> (b: bool)
        ensures
            b == self.state.is_out(),
    {
        self.state.is_out()
    }

    /// No chips left at all, neither in the stack nor in front.
    pub fn is_tapped_out(&self) -> (b: bool)
        ensures
            b == (self.chips == 0 && self.bet == 0),
    {
        self.chips == 0 && self.bet == 0
    }

    /// Ready for a new hand: yet to act, with nothing in front and nothing
    /// committed.
    pub fn is_clear(&self) -> (b: bool)
        ensures
            b == (self.state is YetToAct && self.bet == 0 && self.chips_in_play == 0),
    {
        self.state.is_yet_to_act() && self.bet == 0 && self.chips_in_play == 0
    }

    pub fn has_bet(&self) -> (b: bool)
        ensures
            b == (self.bet > 0),
    {
        self.bet > 0
    }

    /// Puts chips in for a wager of the kind and amount of `bet_type`: the
    /// difference between that amount and what is already in front moves
    /// from the stack to the bet. Refused, with nothing moved, when the
    /// amount is zero, above the player's chips, not above the current bet,
    /// or the player is not active. A wager that empties the stack leaves the
    /// player all-in; an all-in request that leaves chips behind is refused
    /// after the chips have moved, with the state unchanged.
    fn act_bet_internal(&mut self, bet_type: PlayerState) -> (r: Result<usize, PKError>)
        requires
            old(self).wf(),
        ensures
            Player::wager_outcome(*old(self), bet_type, *final(self), r),
    {
        let amount = bet_type.amount();
        if amount == 0 {
            return Err(PKError::InvalidAction);
        }
        if amount > self.chips + self.bet {
            return Err(PKError::InsufficientChips);
        }
        if !self.state.is_active() {
            return Err(PKError::InvalidTableAction);
        }
        let additional_bet = amount - if amount < self.bet {
            amount
        } else {
            self.bet
        };
        if additional_bet == 0 {
            return Err(PKError::InsufficientChips);
        }
        self.chips = self.chips - additional_bet;
        self.bet = self.bet + additional_bet;
        self.chips_in_play = self.chips_in_play + additional_bet;
        if self.is_all_in() {
            self.state = PlayerState::AllIn(self.bet);
        } else {
            if matches!(bet_type, PlayerState::AllIn(_)) {
                return Err(PKError::InvalidTableAction);
            }
            self.state = bet_type;
        }
        Ok(self.chips)
    }

    /// Posts dead money (an ante) of up to `amount`: it goes from the stack
    /// into the chips committed to the hand, not into the street bet.
    /// Returns what was posted; nothing for an inactive player. Taking the
    /// last chip leaves the player all-in.
    pub fn post_dead(&mut self, amount: usize) -> (actual: usize)
        requires
            old(self).wf(),
        ensures
            final(self).wf(),
            (*final(self), actual) == old(self).dead_posted(amount),
    {
        if !self.is_active() {
            return 0;
        }
        let actual = if amount < self.chips {
            amount
        } else {
            self.chips
        };
        if actual == 0 {
            return 0;
        }
        self.chips = self.chips - actual;
        self.chips_in_play = self.chips_in_play + actual;
        if self.chips == 0 {
            self.state = PlayerState::AllIn(self.bet);
        }
        actual
    }

    /// Bets `amount` in total.
    pub fn act_bet(&mut self, amount: usize) -> (r: Result<usize, PKError>)
        requires
            old(self).wf(),
        ensures
            Player::wager_outcome(*old(self), PlayerState::Bet(amount), *final(self), r),
    {
        self.act_bet_internal(PlayerState::Bet(amount))
    }

    /// Posts a blind of `amount`, or the whole stack when it is smaller.
    pub fn act_bet_blind(&mut self, amount: usize) -> (r: Result<usize, PKError>)
        requires
            old(self).wf(),
        ensures
            final(self).wf(),
            final(self).holdings() == old(self).holdings(),
            old(self).chips + old(self).bet >= amount ==> Player::wager_outcome(
                *old(self),
                PlayerState::Blind(amount),
                *final(self),
                r,
            ),
            old(self).chips + old(self).bet < amount && old(self).all_in() ==> r == Err::<usize, PKError>(
                PKError::InvalidTableAction,
            ) && *final(self) == *old(self),
            old(self).chips + old(self).bet < amount && !old(self).all_in() ==> match old(self).wager_error(
                PlayerState::AllIn((old(self).chips + old(self).bet) as usize),
            ) {
                Some(e) => r == Err::<usize, PKError>(e) && *final(self) == *old(self),
                None => r == Ok::<usize, PKError>((old(self).chips + old(self).bet) as usize) && *final(self)
                    == old(self).all_in_spec(),
            },
    {
        if self.chips + self.bet < amount {
            return self.act_all_in();
        }
        self.act_bet_internal(PlayerState::Blind(amount))
    }

    /// Posts a blind of `required_amount`, or of everything the player has
    /// when that is less, and returns the amount posted. Refused with
    /// `InsufficientChips` when the player has nothing.
    pub fn act_blind_or_all_in(&mut self, required_amount: usize) -> (r: Result<usize, PKError>)
        requires
            old(self).wf(),
        ensures
            final(self).wf(),
            final(self).holdings() == old(self).holdings(),
            match old(self).blind_step(required_amount) {
                Ok((q, a)) => r == Ok::<usize, PKError>(a) && *final(self) == q,
                Err(e) => r == Err::<usize, PKError>(e) && *final(self) == *old(self),
            },
    {
        let total = self.chips + self.bet;
        let actual = if required_amount < total {
            required_amount
        } else {
            total
        };
        if actual == 0 {
            return Err(PKError::InsufficientChips);
        }
        match self.act_bet_internal(PlayerState::Blind(actual)) {
            Ok(_) => Ok(actual),
            Err(e) => Err(e),
        }
    }

    /// Calls, bringing the bet up to `amount` in total.
    pub fn act_call(&mut self, amount: usize) -> (r: Result<usize, PKError>)
        requires
            old(self).wf(),
        ensures
            Player::wager_outcome(*old(self), PlayerState::Call(amount), *final(self), r),
    {
        self.act_bet_internal(PlayerState::Call(amount))
    }

    /// Raises the bet to `amount` in total.
    pub fn act_raise(&mut self, amount: usize) -> (r: Result<usize, PKError>)
        requires
            old(self).wf(),
        ensures
            Player::wager_outcome(*old(self), PlayerState::Raise(amount), *final(self), r),
    {
        self.act_bet_internal(PlayerState::Raise(amount))
    }

    /// Puts every chip in and returns the bet that results. Refused with
    /// `InvalidTableAction` for a player already all-in.
    pub fn act_all_in(&mut self) -> (r: Result<usize, PKError>)
        requires
            old(self).wf(),
        ensures
            final(self).wf(),
            final(self).holdings() == old(self).holdings(),
            old(self).all_in() ==> r == Err::<usize, PKError>(PKError::InvalidTableAction)
                && *final(self) == *old(self),
            r is Ok ==> r == Ok::<usize, PKError>((old(self).chips + old(self).bet) as usize)
                && *final(self) == old(self).all_in_spec(),
            !old(self).all_in() && old(self).wager_error(
                PlayerState::AllIn((old(self).chips + old(self).bet) as usize),
            ) is None ==> r is Ok,
            !old(self).all_in() ==> (old(self).wager_error(
                PlayerState::AllIn((old(self).chips + old(self).bet) as usize),
            ) matches Some(e) ==> r == Err::<usize, PKError>(e) && *final(self) == *old(self)),
    {
        if self.is_all_in() {
            return Err(PKError::InvalidTableAction);
        }
        let amount = self.chips + self.bet;
        match self.act_bet_internal(PlayerState::AllIn(amount)) {
            Ok(_) => Ok(amount),
            Err(e) => Err(e),
        }
    }

    /// Checks. Refused with `InvalidTableAction` when the player is not
    /// active or the current state does not permit a check.
    pub fn act_check(&mut self) -> (r: Result<(), PKError>)
        ensures
            (old(self).state.is_active() && old(self).state.permits(PlayerState::Check)) ==> r is Ok
                && *final(self) == (Player { state: PlayerState::Check, ..*old(self) }),
            !(old(self).state.is_active() && old(self).state.permits(PlayerState::Check)) ==> r
                == Err::<(), PKError>(PKError::InvalidTableAction) && *final(self) == *old(self),
    {
        if !self.state.is_active() {
            return Err(PKError::InvalidTableAction);
        }
        if !self.state.can_given(&PlayerState::Check) {
            return Err(PKError::InvalidTableAction);
        }
        self.state = PlayerState::Check;
        Ok(())
    }

    /// Folds, handing back the chips in front (they belong to the pot now).
    /// Refused with `InvalidTableAction` for a player not active.
    pub fn act_fold(&mut self) -> (r: Result<usize, PKError>)
        ensures
            old(self).state.is_active() ==> r == Ok::<usize, PKError>(old(self).bet)
                && *final(self) == (Player { state: PlayerState::Fold, bet: 0, ..*old(self) }),
            !old(self).state.is_active() ==> r == Err::<usize, PKError>(
                PKError::InvalidTableAction,
            ) && *final(self) == *old(self),
    {
        if !self.state.is_active() {
            return Err(PKError::InvalidTableAction);
        }
        self.state = PlayerState::Fold;
        let bet = self.bet;
        self.bet = 0;
        Ok(bet)
    }

    /// Ends the street: hands back the chips in front, and an active player
    /// with chips left waits to act on the next street.
    pub fn act_bring_it_in(&mut self) -> (b: usize)
        ensures
            b == old(self).bet,
            *final(self) == (Player {
                bet: 0,
                state: if old(self).state.is_active() && old(self).chips > 0 {
                    PlayerState::YetToAct
                } else {
                    old(self).state
                },
                ..*old(self)
            }),
    {
        let bet = self.bet;
        self.bet = 0;
        if self.state.is_active() && self.chips > 0 {
            self.state = PlayerState::YetToAct;
        }
        bet
    }

    /// Ends the street without touching the state: nobody acts again.
    pub fn act_bring_it_in_frozen(&mut self) -> (b: usize)
        ensures
            b == old(self).bet,
            *final(self) == (Player { bet: 0, ..*old(self) }),
    {
        let bet = self.bet;
        self.bet = 0;
        bet
    }

    /// Closes the hand for this player: hands back the chips in front and
    /// marks them at showdown with what they committed.
    pub fn act_close_it_out(&mut self) -> (r: Result<usize, PKError>)
        ensures
            old(self).state.is_active() ==> r == Ok::<usize, PKError>(old(self).bet)
                && *final(self) == (Player {
                    state: PlayerState::Showdown(old(self).chips_in_play),
                    bet: 0,
                    ..*old(self)
                }),
            !old(self).state.is_active() ==> r == Err::<usize, PKError>(
                PKError::InvalidTableAction,
            ) && *final(self) == *old(self),
    {
        if !self.state.is_active() {
            return Err(PKError::InvalidTableAction);
        }
        self.state = PlayerState::Showdown(self.chips_in_play);
        let bet = self.bet;
        self.bet = 0;
        Ok(bet)
    }

    /// Clears the hand's commitment and waits to act.
    pub fn reset(&mut self)
        ensures
            *final(self) == (Player {
                chips_in_play: 0,
                state: PlayerState::YetToAct,
                ..*old(self)
            }),
    {
        self.chips_in_play = 0;
        self.state = PlayerState::YetToAct;
    }
}

} // verus!
