//! The course of a hand at a table: gathering the street bets, moving to
//! the next street, the button, the shuffle, and the start of a new hand.
use vstd::prelude::*;

use crate::card::{shuffled, Card};
use crate::casino::action::TableAction;
use crate::casino::table::seat::Seat;
use crate::casino::table::seats::{
    bets, betting_complete, brought_in, closed_out, freezes, holdings, lemma_bets_le_holdings,
    lemma_holdings_brought_in, lemma_holdings_closed_out, lemma_holdings_le_pointwise,
    players_wf,
};
use crate::casino::table::{GamePhase, Table};
use crate::error::PKError;

verus! {

impl Table {
    /// What gathering the street bets does: refused with `InvalidAction`,
    /// nothing changed, once the hand is over; otherwise the table bet is
    /// cleared, and while the betting is not complete it is refused with
    /// `ActionIsntFinished`; else every bet goes to the pot (the seats as
    /// `Seats::bring_it_in` leaves them), the increment and the raise count
    /// are cleared, the chips and the pot are logged, and the pot is
    /// answered.
    pub open spec fn bring_in_outcome(before: Table, after: Table, r: Result<usize, PKError>) -> bool {
        if before.game_over() {
            r == Err::<usize, PKError>(PKError::InvalidAction) && Table::unchanged(before, after)
        } else if !betting_complete(before.seats@) {
            &&& r == Err::<usize, PKError>(PKError::ActionIsntFinished)
            &&& after.seats@ == before.seats@
            &&& after == (Table { seats: after.seats, bet: 0, ..before })
        } else {
            &&& after.seats@ == before.seats@.map_values(|x: Seat| brought_in(x, freezes(before.seats@)))
            &&& after.pot == before.pot + bets(before.seats@)
            &&& r == Ok::<usize, PKError>(after.pot)
            &&& after == (Table {
                seats: after.seats,
                pot: after.pot,
                bet: 0,
                raise_increment: 0,
                raises_this_street: 0,
                event_log: after.event_log,
                ..before
            })
            &&& after.event_log@ == before.event_log@ + seq![
                TableAction::BringItIn(bets(before.seats@) as usize),
                TableAction::PotSize(after.pot),
            ]
        }
    }

    /// Ends the betting street: every bet goes into the pot, which is
    /// answered.
    pub fn bring_it_in(&mut self) -> (r: Result<usize, PKError>)
        requires
            old(self).wf(),
        ensures
            final(self).wf(),
            final(self).chips_on_table() == old(self).chips_on_table(),
            Table::bring_in_outcome(*old(self), *final(self), r),
    {
        if self.is_game_over() {
            return Err(PKError::InvalidAction);
        }
        let ghost before = *self;
        self.bet = 0;
        let brought_in = match self.seats.bring_it_in() {
            Ok(n) => n,
            Err(e) => {
                return Err(e);
            },
        };
        proof {
            lemma_holdings_brought_in(before.seats@, freezes(before.seats@));
            assert forall|j: int| 0 <= j < self.seats@.len() implies (#[trigger] self.seats@[j]).player.wf() by {
                assert(before.seats@[j].player.wf());
            }
        }
        self.raise_increment = 0;
        self.raises_this_street = 0;
        self.log(TableAction::BringItIn(brought_in));
        self.pot = self.pot + brought_in;
        let pot = self.pot;
        self.log(TableAction::PotSize(pot));
        proof {
            assert(self.event_log@ =~= before.event_log@ + seq![
                TableAction::BringItIn(bets(before.seats@) as usize),
                TableAction::PotSize(self.pot),
            ]);
        }
        Ok(pot)
    }

    /// What closing out the hand's betting does: refused with
    /// `ActionIsntFinished`, nothing changed, while the betting is not
    /// complete; refused with `InvalidTableAction` when a seat with a bet in
    /// front is not active (seats before it already closed out); otherwise
    /// every bet goes to the pot, the seats with a bet are at showdown, the
    /// table bet is cleared, the chips, the pot and the close are logged,
    /// and the pot is answered.
    pub open spec fn close_out_outcome(before: Table, after: Table, r: Result<usize, PKError>) -> bool {
        if !betting_complete(before.seats@) {
            r == Err::<usize, PKError>(PKError::ActionIsntFinished) && Table::unchanged(before, after)
        } else if exists|j: int|
            0 <= j < before.seats@.len() && (#[trigger] before.seats@[j]).player.bet > 0
                && !before.seats@[j].player.state.is_active() {
            &&& r == Err::<usize, PKError>(PKError::InvalidTableAction)
            &&& after.seats@.len() == before.seats@.len()
            &&& forall|j: int|
                0 <= j < before.seats@.len() ==> #[trigger] after.seats@[j] == closed_out(before.seats@[j])
                    || after.seats@[j] == before.seats@[j]
            &&& after == (Table { seats: after.seats, ..before })
        } else {
            &&& after.seats@ == before.seats@.map_values(|x: Seat| closed_out(x))
            &&& after.pot == before.pot + bets(before.seats@)
            &&& r == Ok::<usize, PKError>(after.pot)
            &&& after == (Table {
                seats: after.seats,
                pot: after.pot,
                bet: 0,
                event_log: after.event_log,
                ..before
            })
            &&& after.event_log@ == before.event_log@ + seq![
                TableAction::BringItIn(bets(before.seats@) as usize),
                TableAction::PotSize(after.pot),
                TableAction::CloseItOut(after.pot),
            ]
        }
    }

    /// Closes out the hand's betting: every bet goes into the pot, which is
    /// answered. Chips are kept whenever it succeeds.
    pub fn close_it_out(&mut self) -> (r: Result<usize, PKError>)
        requires
            old(self).wf(),
        ensures
            final(self).wf(),
            r is Ok ==> final(self).chips_on_table() == old(self).chips_on_table(),
            Table::close_out_outcome(*old(self), *final(self), r),
    {
        let ghost before = *self;
        let brought_in = match self.seats.close_it_out() {
            Ok(n) => n,
            Err(e) => {
                proof {
                    assert forall|j: int| 0 <= j < self.seats@.len() implies (#[trigger] self.seats@[j]).player.wf()
                        && self.seats@[j].player.holdings() <= before.seats@[j].player.holdings() by {
                        assert(before.seats@[j].player.wf());
                    }
                    lemma_holdings_le_pointwise(before.seats@, self.seats@);
                    if !betting_complete(before.seats@) {
                        assert(self.seats@ =~= before.seats@);
                    }
                }
                return Err(e);
            },
        };
        proof {
            lemma_holdings_closed_out(before.seats@);
            lemma_bets_le_holdings(before.seats@);
            assert forall|j: int| 0 <= j < self.seats@.len() implies (#[trigger] self.seats@[j]).player.wf() by {
                assert(before.seats@[j].player.wf());
            }
        }
        self.log(TableAction::BringItIn(brought_in));
        self.pot = self.pot + brought_in;
        self.bet = 0;
        let pot = self.pot;
        self.log(TableAction::PotSize(pot));
        self.log(TableAction::CloseItOut(pot));
        proof {
            assert(self.event_log@ =~= before.event_log@ + seq![
                TableAction::BringItIn(bets(before.seats@) as usize),
                TableAction::PotSize(self.pot),
                TableAction::CloseItOut(self.pot),
            ]);
        }
        Ok(pot)
    }

    /// How many cards the deck must hold to deal the next street: a burn
    /// and three for the flop, a burn and one for the turn and the river.
    /// Refused with `InvalidAction` when no street is left.
    fn cards_needed_for_next_street(&self) -> (r: Result<usize, PKError>)
        ensures
            r == (if self.board@.len() == 0 {
                Ok::<usize, PKError>(4)
            } else if self.board@.len() == 3 || self.board@.len() == 4 {
                Ok::<usize, PKError>(2)
            } else {
                Err::<usize, PKError>(PKError::InvalidAction)
            }),
    {
        let n = self.board.len();
        if n == 0 {
            Ok(4)
        } else if n == 3 || n == 4 {
            Ok(2)
        } else {
            Err(PKError::InvalidAction)
        }
    }

    /// Ends the betting street and deals the next one, as a single step:
    /// with no street left it is refused with `InvalidAction`, and with too
    /// few cards for the next street with `NotEnoughCards`, both before
    /// anything moves; otherwise the bets are brought in and, unless that
    /// is refused, the flop, turn or river is dealt by the board's size.
    pub fn advance_street(&mut self) -> (r: Result<(), PKError>)
        requires
            old(self).wf(),
        ensures
            final(self).wf(),
            final(self).chips_on_table() == old(self).chips_on_table(),
            !(old(self).board@.len() == 0 || old(self).board@.len() == 3 || old(self).board@.len() == 4)
                ==> r == Err::<(), PKError>(PKError::InvalidAction) && Table::unchanged(*old(self), *final(self)),
            (old(self).board@.len() == 0 && old(self).deck@.len() < 4) || ((old(self).board@.len() == 3
                || old(self).board@.len() == 4) && old(self).deck@.len() < 2) ==> r == Err::<(), PKError>(
                PKError::NotEnoughCards,
            ) && Table::unchanged(*old(self), *final(self)),
            (old(self).board@.len() == 0 && old(self).deck@.len() >= 4) || ((old(self).board@.len() == 3
                || old(self).board@.len() == 4) && old(self).deck@.len() >= 2) ==> exists|mid: Table, b: Result<usize, PKError>|
                {
                    &&& Table::bring_in_outcome(*old(self), mid, b)
                    &&& b matches Err(e) ==> r == Err::<(), PKError>(e) && *final(self) == mid
                    &&& b is Ok && old(self).board@.len() == 0 ==> mid.deck@ == old(self).deck@ && r is Ok
                        && final(self).board@ == mid.deck@.subrange(1, 4)
                        && final(self).phase == GamePhase::DealFlop
                    &&& b is Ok && old(self).board@.len() == 3 ==> Table::street_card_outcome(mid, true, *final(self), r)
                    &&& b is Ok && old(self).board@.len() == 4 ==> Table::street_card_outcome(mid, false, *final(self), r)
                },
    {
        let needed = match self.cards_needed_for_next_street() {
            Ok(n) => n,
            Err(e) => {
                return Err(e);
            },
        };
        if self.deck.len() < needed {
            return Err(PKError::NotEnoughCards);
        }
        let ghost before = *self;
        let b = self.bring_it_in();
        let ghost mid = *self;
        match b {
            Ok(_) => {},
            Err(e) => {
                proof {
                    assert(Table::bring_in_outcome(before, mid, b));
                }
                return Err(e);
            },
        }
        let n = self.board.len();
        let r = if n == 0 {
            self.deal_flop()
        } else if n == 3 {
            self.deal_turn()
        } else {
            self.deal_river()
        };
        proof {
            assert(Table::bring_in_outcome(before, mid, b));
        }
        r
    }

    /// Starts a new hand: the phase becomes `NewHand`, logged.
    pub fn act_new_hand(&mut self)
        ensures
            final(self).event_log@ == old(self).event_log@.push(TableAction::NewHand),
            *final(self) == (Table {
                phase: GamePhase::NewHand,
                event_log: final(self).event_log,
                ..*old(self)
            }),
    {
        self.phase = GamePhase::NewHand;
        self.log(TableAction::NewHand);
    }

    /// Shuffles the deck: the phase becomes `ShuffleNewDeck`, the deck
    /// holds the same cards in a random order, and the shuffle is logged.
    pub fn act_shuffle_deck(&mut self)
        ensures
            final(self).deck@.to_multiset() == old(self).deck@.to_multiset(),
            final(self).event_log@ == old(self).event_log@.push(TableAction::ShuffleDeck),
            *final(self) == (Table {
                phase: GamePhase::ShuffleNewDeck,
                deck: final(self).deck,
                event_log: final(self).event_log,
                ..*old(self)
            }),
            final(self).cards_at_table() == old(self).cards_at_table(),
    {
        self.phase = GamePhase::ShuffleNewDeck;
        let mut deck: Vec<Card> = Vec::new();
        std::mem::swap(&mut deck, &mut self.deck);
        self.deck = shuffled(deck);
        self.log(TableAction::ShuffleDeck);
    }

    /// Moves the button one seat clockwise, logged.
    pub fn act_button_move(&mut self)
        requires
            0 < old(self).seats@.len() <= 256,
        ensures
            final(self).button == (old(self).button + 1) % (old(self).seats@.len() as int),
            final(self).event_log@ == old(self).event_log@.push(TableAction::MoveButton(final(self).button)),
            *final(self) == (Table {
                button: final(self).button,
                event_log: final(self).event_log,
                ..*old(self)
            }),
    {
        let n = self.seats.0.len();
        self.button = ((self.button as usize + 1) % n) as u8;
        let b = self.button;
        self.log(TableAction::MoveButton(b));
    }

    /// Puts the button at `seat_number`, logged.
    pub fn button_set(&mut self, seat_number: u8)
        ensures
            final(self).event_log@ == old(self).event_log@.push(TableAction::SetButton(seat_number)),
            *final(self) == (Table {
                button: seat_number,
                event_log: final(self).event_log,
                ..*old(self)
            }),
    {
        self.button = seat_number;
        self.log(TableAction::SetButton(seat_number));
    }
}

} // verus!
