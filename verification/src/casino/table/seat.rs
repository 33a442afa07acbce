//! A seat at a table: a player and the cards in front of them.
use vstd::prelude::*;

use crate::card::{BoxedCards, Card};
use crate::casino::state::PlayerState;
use crate::casino::table::player::Player;

verus! {

#[derive(Clone, Debug, PartialEq, Eq)]
pub struct Seat {
    pub player: Player,
    pub cards: BoxedCards,
    /// The table bet when this seat last acted on the current street.
    pub bet_level_when_last_acted: usize,
}

impl Seat {
    /// Nobody sits here: the player has the nil id or no handle.
    pub open spec fn vacant(&self) -> bool {
        self.player.id == 0 || self.player.handle@.len() == 0
    }

    /// Occupied by a player still contesting the hand.
    pub open spec fn active(&self) -> bool {
        !self.vacant() && self.player.state.is_active()
    }

    /// Occupied by a player dealt into the hand and not folded.
    pub open spec fn in_hand(&self) -> bool {
        !self.vacant() && self.player.state.is_in_hand()
    }

    /// An empty seat with two blank card slots.
    pub fn default() -> (s: Seat)
        ensures
            s.player.id == 0,
            s.player.chips == 0 && s.player.bet == 0 && s.player.chips_in_play == 0,
            s.player.state == PlayerState::Out,
            s.cards.slots == 2 && s.cards.dealt@.len() == 0,
            s.bet_level_when_last_acted == 0,
            s.vacant(),
    {
        Seat { player: Player::default(), cards: BoxedCards::blanks(2), bet_level_when_last_acted: 0 }
    }

    /// Seats `player` with two blank card slots.
    pub fn new(player: Player) -> (s: Seat)
        ensures
            s.player == player,
            s.cards.slots == 2 && s.cards.dealt@.len() == 0,
            s.bet_level_when_last_acted == 0,
    {
        Seat { player, cards: BoxedCards::blanks(2), bet_level_when_last_acted: 0 }
    }

    /// Seats `player` holding `cards`.
    pub fn new_with_cards(player: Player, cards: BoxedCards) -> (s: Seat)
        ensures
            s.player == player,
            s.cards == cards,
            s.bet_level_when_last_acted == 0,
    {
        Seat { player, cards, bet_level_when_last_acted: 0 }
    }

    /// Seats a new player with no chips under `handle`.
    pub fn from_handle(handle: String) -> (s: Seat)
        ensures
            s.player.handle == handle,
            s.player.id != 0,
            s.player.chips == 0,
            s.cards.slots == 2 && s.cards.dealt@.len() == 0,
    {
        Seat::new(Player::new(handle))
    }

    pub fn is_empty(&self) -> (b: bool)
        ensures
            b == self.vacant(),
    {
        self.player.id == 0 || self.player.handle.as_str().is_empty()
    }

    pub fn is_active(&self) -> (b: bool)
        ensures
            b == self.active(),
    {
        !self.is_empty() && self.player.is_active()
    }

    pub fn is_all_in(&self) -> (b: bool)
        ensures
            b == self.player.all_in(),
    {
        self.player.is_all_in()
    }

    pub fn is_in_hand(&self) -> (b: bool)
        ensures
            b == self.in_hand(),
    {
        !self.is_empty() && self.player.is_in_hand()
    }

    pub fn is_yet_to_act(&self) -> (b: bool)
        ensures
            b == self.player.state is YetToAct,
    {
        self.player.state.is_yet_to_act()
    }

    pub fn is_yet_to_act_or_blind(&self) -> (b: bool)
        ensures
            b == (self.player.state is YetToAct || self.player.state is Blind),
    {
        self.player.state.is_yet_to_act_or_blind()
    }

    pub fn is_clear(&self) -> (b: bool)
        ensures
            b == (self.player.state is YetToAct && self.player.bet == 0
                && self.player.chips_in_play == 0),
    {
        self.player.is_clear()
    }

    /// Takes the seat's cards away, leaving blank slots.
    pub fn discard_cards(&mut self) -> (v: Vec<Card>)
        ensures
            v == old(self).cards.dealt,
            final(self).cards.dealt@.len() == 0,
            final(self).cards.slots == old(self).cards.slots,
            final(self).player == old(self).player,
            final(self).bet_level_when_last_acted == old(self).bet_level_when_last_acted,
    {
        self.cards.take()
    }
}

} // verus!
