//! The player actions at a table: check, fold, call, bet, raise and all-in,
//! each refused out of turn, each keeping every chip at the table.
use vstd::multiset::Multiset;
use vstd::prelude::*;

use crate::card::{bard_of, Bard, BoxedCards, Card};
use crate::casino::table::dealing::{lemma_seat_cards_update, seat_cards};
use crate::casino::action::TableAction;
use crate::casino::state::PlayerState;
use crate::casino::table::player::Player;
use crate::casino::table::seat::Seat;
use crate::casino::table::seats::{
    holdings, lemma_holdings_update, max_bet, player_replaced, players_wf,
};
use crate::casino::table::Table;
use crate::error::PKError;

verus! {

/// The ring `s` with seat `idx` holding the player `p`.
pub open spec fn with_player(s: Seq<Seat>, idx: int, p: Player) -> Seq<Seat> {
    s.update(idx, Seat { player: p, ..s[idx] })
}

/// The chips a player holds for an all-in: stack and street bet.
pub open spec fn stack_of(p: Player) -> nat {
    (p.chips + p.bet) as nat
}

impl Table {
    /// An action out of turn: refused with `TableActionOutOfOrder` naming
    /// the attempt, which is logged, and nothing else changes.
    pub open spec fn refused_out_of_turn(
        before: Table,
        after: Table,
        r: Result<usize, PKError>,
        attempt: TableAction,
    ) -> bool {
        &&& r == Err::<usize, PKError>(PKError::TableActionOutOfOrder(attempt))
        &&& after.same_but_log(&before)
        &&& after.event_log@ == before.event_log@.push(attempt)
    }

    /// `after` holds what `before` held: the same seats, and every other
    /// field the same.
    pub open spec fn unchanged(before: Table, after: Table) -> bool {
        &&& after.seats@ == before.seats@
        &&& after == (Table { seats: after.seats, ..before })
    }

    /// `after` is `before` with new seats and a longer log: the entries
    /// `entries` and then the hand-off of the action to whoever is next.
    pub open spec fn seat_acted(before: Table, after: Table, entries: Seq<TableAction>) -> bool {
        &&& after == (Table { seats: after.seats, event_log: after.event_log, ..before })
        &&& after.event_log@ == before.event_log@ + entries + seq![
            TableAction::ActionTo(after.next_to_act_spec()),
        ]
    }

    /// What a check by `seat` does: past the end of the ring it is refused
    /// with `InvalidSeatNumber`; a seat short of the largest bet, not
    /// active, or whose state does not permit a check is refused with
    /// `InvalidTableAction`; otherwise the seat checks, its stack is
    /// answered, and the check and the next turn are logged.
    pub open spec fn check_outcome(before: Table, seat: u8, after: Table, r: Result<usize, PKError>) -> bool {
        if seat >= before.seats@.len() {
            r == Err::<usize, PKError>(PKError::InvalidSeatNumber) && Table::unchanged(before, after)
        } else {
            let p = before.seats@[seat as int].player;
            if p.bet >= max_bet(before.seats@) && p.state.is_active() && p.state.permits(
                PlayerState::Check,
            ) {
                &&& r == Ok::<usize, PKError>(p.chips)
                &&& after.seats@ == with_player(
                    before.seats@,
                    seat as int,
                    Player { state: PlayerState::Check, ..p },
                )
                &&& Table::seat_acted(before, after, seq![TableAction::Check(seat)])
            } else {
                r == Err::<usize, PKError>(PKError::InvalidTableAction) && Table::unchanged(before, after)
            }
        }
    }

    /// Checks for `seat_number` and answers the stack left.
    pub fn act_check(&mut self, seat_number: u8) -> (r: Result<usize, PKError>)
        requires
            old(self).wf(),
            old(self).seats@.len() > 0,
        ensures
            final(self).wf(),
            final(self).chips_on_table() == old(self).chips_on_table(),
            seat_number != old(self).next_to_act_spec() ==> Table::refused_out_of_turn(
                *old(self),
                *final(self),
                r,
                TableAction::InvalidPlayerAction(seat_number, PlayerState::Check),
            ),
            seat_number == old(self).next_to_act_spec() ==> Table::check_outcome(
                *old(self),
                seat_number,
                *final(self),
                r,
            ),
    {
        if seat_number != self.next_to_act() {
            let err = TableAction::InvalidPlayerAction(seat_number, PlayerState::Check);
            self.log(err);
            return Err(PKError::TableActionOutOfOrder(err));
        }
        let ghost before = *self;
        let remaining = match self.seats.act_check(seat_number) {
            Ok(n) => n,
            Err(e) => {
                return Err(e);
            },
        };
        proof {
            let p = before.seats@[seat_number as int].player;
            lemma_holdings_update(before.seats@, seat_number as int, self.seats@[seat_number as int]);
            assert(self.seats@[seat_number as int].player.holdings() == p.holdings());
            assert forall|j: int| 0 <= j < self.seats@.len() implies (#[trigger] self.seats@[j]).player.wf() by {
                if j != seat_number {
                    assert(self.seats@[j] == before.seats@[j]);
                }
            }
        }
        self.log(TableAction::Check(seat_number));
        let next = self.next_to_act();
        self.log(TableAction::ActionTo(next));
        proof {
            assert(self.event_log@ =~= before.event_log@ + seq![TableAction::Check(seat_number)] + seq![
                TableAction::ActionTo(self.next_to_act_spec()),
            ]);
        }
        Ok(remaining)
    }
}

/// The log entries of a seat mucking `cards`: none when it holds none.
pub open spec fn mucked_entries(seat: u8, cards: Seq<crate::card::Card>) -> Seq<TableAction> {
    if cards.len() > 0 {
        seq![
            TableAction::MuckPlayerCards(seat, bard_of(cards)),
            TableAction::TakePlayerCards(seat, bard_of(cards)),
        ]
    } else {
        Seq::empty()
    }
}

/// `after` is the ring `before` with seat `idx` now `x`, whose cards are
/// gone and whose slots are kept.
pub open spec fn seat_emptied_to(before: Seq<Seat>, after: Seq<Seat>, idx: int, p: Player) -> bool {
    &&& after.len() == before.len()
    &&& forall|j: int| 0 <= j < before.len() && j != idx ==> after[j] == before[j]
    &&& after[idx].player == p
    &&& after[idx].bet_level_when_last_acted == before[idx].bet_level_when_last_acted
    &&& after[idx].cards.slots == before[idx].cards.slots
    &&& after[idx].cards.dealt@.len() == 0
}

impl Table {
    /// Seat `seat_number` throws its cards into the muck, both moves
    /// logged; a seat with no cards changes nothing, and a seat past the end
    /// of the ring logs an invalid action.
    pub fn player_mucks_cards(&mut self, seat_number: u8)
        ensures
            final(self).cards_at_table() == old(self).cards_at_table(),
            seat_number >= old(self).seats@.len() ==> final(self).same_but_log(old(self))
                && final(self).event_log@ == old(self).event_log@.push(TableAction::InvalidAction),
            seat_number < old(self).seats@.len() ==> {
                let x = old(self).seats@[seat_number as int];
                &&& seat_emptied_to(old(self).seats@, final(self).seats@, seat_number as int, x.player)
                &&& final(self).muck@ == old(self).muck@ + x.cards.dealt@
                &&& final(self).event_log@ == old(self).event_log@ + mucked_entries(
                    seat_number,
                    x.cards.dealt@,
                )
                &&& *final(self) == (Table {
                    seats: final(self).seats,
                    muck: final(self).muck,
                    event_log: final(self).event_log,
                    ..*old(self)
                })
            },
    {
        if (seat_number as usize) >= self.seats.0.len() {
            self.log(TableAction::InvalidAction);
            return ;
        }
        let ghost before = *self;
        if !self.seats.0[seat_number as usize].cards.has_cards() {
            proof {
                assert(mucked_entries(seat_number, before.seats@[seat_number as int].cards.dealt@) =~= Seq::empty());
                assert(self.event_log@ =~= before.event_log@ + Seq::empty());
                assert(self.muck@ =~= before.muck@ + before.seats@[seat_number as int].cards.dealt@);
            }
            return ;
        }
        let mut cards = self.seats.0[seat_number as usize].cards.take();
        let bard = Bard::from_cards(&cards);
        self.log(TableAction::MuckPlayerCards(seat_number, bard));
        self.log(TableAction::TakePlayerCards(seat_number, bard));
        self.muck.append(&mut cards);
        proof {
            let idx = seat_number as int;
            let x = before.seats@[idx];
            let y = self.seats@[idx];
            assert(self.seats@ =~= before.seats@.update(idx, y));
            lemma_seat_cards_update(before.seats@, idx, y);
            assert(y.cards.dealt@ =~= Seq::<Card>::empty());
            vstd::seq_lib::lemma_multiset_commutative(before.muck@, x.cards.dealt@);
            broadcast use vstd::multiset::group_multiset_axioms, vstd::seq_lib::group_to_multiset_ensures;

            assert(y.cards.dealt@.to_multiset() =~= Multiset::<Card>::empty()) by {
                assert(y.cards.dealt@.to_multiset().len() == 0);
            }
            assert(self.muck@ == before.muck@ + x.cards.dealt@);
            assert forall|v: Card| #[trigger] self.cards_at_table().count(v) == before.cards_at_table().count(v) by {
                assert(seat_cards(self.seats@).add(x.cards.dealt@.to_multiset()).count(v) == seat_cards(before.seats@).add(y.cards.dealt@.to_multiset()).count(v));
                assert(self.muck@.to_multiset().count(v) == before.muck@.to_multiset().count(v) + x.cards.dealt@.to_multiset().count(v));
            }
            assert(self.cards_at_table() =~= before.cards_at_table());
            assert(self.event_log@ =~= before.event_log@ + mucked_entries(
                seat_number,
                before.seats@[seat_number as int].cards.dealt@,
            ));
        }
    }

    /// What a fold by `seat` does: past the end of the ring it is refused
    /// with `InvalidSeatNumber`; a seat not active is refused with
    /// `InvalidTableAction`; otherwise the player folds, the chips in front
    /// go to the pot and are answered, the cards go to the muck, and the
    /// fold, the chips, the pot, the muck and the next turn are logged.
    pub open spec fn fold_outcome(before: Table, seat: u8, after: Table, r: Result<usize, PKError>) -> bool {
        if seat >= before.seats@.len() {
            r == Err::<usize, PKError>(PKError::InvalidSeatNumber) && Table::unchanged(before, after)
        } else {
            let x = before.seats@[seat as int];
            let p = x.player;
            if p.state.is_active() {
                &&& r == Ok::<usize, PKError>(p.bet)
                &&& seat_emptied_to(
                    before.seats@,
                    after.seats@,
                    seat as int,
                    Player { state: PlayerState::Fold, bet: 0, ..p },
                )
                &&& after.pot == before.pot + p.bet
                &&& after.muck@ == before.muck@ + x.cards.dealt@
                &&& after == (Table {
                    seats: after.seats,
                    pot: after.pot,
                    muck: after.muck,
                    event_log: after.event_log,
                    ..before
                })
                &&& after.event_log@ == before.event_log@ + seq![
                    TableAction::Fold(seat),
                    TableAction::BringItIn(p.bet),
                    TableAction::PotSize(after.pot),
                ] + mucked_entries(seat, x.cards.dealt@) + seq![
                    TableAction::ActionTo(after.next_to_act_spec()),
                ]
            } else {
                r == Err::<usize, PKError>(PKError::InvalidTableAction) && Table::unchanged(
                    before,
                    after,
                )
            }
        }
    }

    /// Folds `seat_number`, answering the chips it had in front.
    pub fn act_fold(&mut self, seat_number: u8) -> (r: Result<usize, PKError>)
        requires
            old(self).wf(),
            old(self).seats@.len() > 0,
        ensures
            final(self).wf(),
            final(self).chips_on_table() == old(self).chips_on_table(),
            seat_number != old(self).next_to_act_spec() ==> Table::refused_out_of_turn(
                *old(self),
                *final(self),
                r,
                TableAction::InvalidPlayerAction(seat_number, PlayerState::Fold),
            ),
            seat_number == old(self).next_to_act_spec() ==> Table::fold_outcome(
                *old(self),
                seat_number,
                *final(self),
                r,
            ),
    {
        if seat_number != self.next_to_act() {
            let err = TableAction::InvalidPlayerAction(seat_number, PlayerState::Fold);
            self.log(err);
            return Err(PKError::TableActionOutOfOrder(err));
        }
        let ghost before = *self;
        let folded_chips = match self.seats.act_fold(seat_number) {
            Ok(n) => n,
            Err(e) => {
                return Err(e);
            },
        };
        proof {
            let x = before.seats@[seat_number as int];
            lemma_holdings_update(before.seats@, seat_number as int, self.seats@[seat_number as int]);
            assert(self.seats@[seat_number as int].player.holdings() + x.player.bet == x.player.holdings());
            assert forall|j: int| 0 <= j < self.seats@.len() implies (#[trigger] self.seats@[j]).player.wf() by {
                if j != seat_number {
                    assert(self.seats@[j] == before.seats@[j]);
                }
            }
        }
        self.pot = self.pot + folded_chips;
        self.log(TableAction::Fold(seat_number));
        self.log(TableAction::BringItIn(folded_chips));
        self.log(TableAction::PotSize(self.pot));
        let ghost mid = *self;
        self.player_mucks_cards(seat_number);
        proof {
            assert(holdings(self.seats@) == holdings(mid.seats@)) by {
                assert(self.seats@ =~= mid.seats@.update(seat_number as int, self.seats@[seat_number as int]));
                lemma_holdings_update(mid.seats@, seat_number as int, self.seats@[seat_number as int]);
            }
            assert forall|j: int| 0 <= j < self.seats@.len() implies (#[trigger] self.seats@[j]).player.wf() by {
                if j != seat_number {
                    assert(self.seats@[j] == mid.seats@[j]);
                }
            }
        }
        let next = self.next_to_act();
        self.log(TableAction::ActionTo(next));
        proof {
            let x = before.seats@[seat_number as int];
            assert(self.event_log@ =~= before.event_log@ + seq![
                TableAction::Fold(seat_number),
                TableAction::BringItIn(x.player.bet),
                TableAction::PotSize(self.pot),
            ] + mucked_entries(seat_number, x.cards.dealt@) + seq![
                TableAction::ActionTo(self.next_to_act_spec()),
            ]);
        }
        Ok(folded_chips)
    }
}

/// `a - b`, or zero when `b` is larger.
pub open spec fn saturating_diff(a: usize, b: usize) -> usize {
    if a >= b {
        (a - b) as usize
    } else {
        0
    }
}

/// One more raise this street, stopping at the largest `u8`.
pub open spec fn one_more(n: u8) -> u8 {
    if n < 255 {
        (n + 1) as u8
    } else {
        255
    }
}

/// A wager of the kind and amount of `bet_type` by `p` (not an all-in):
/// the player after it, or the refusal.
pub open spec fn wager_step(p: Player, bet_type: PlayerState) -> Result<Player, PKError> {
    match p.wager_error(bet_type) {
        Some(e) => Err(e),
        None => Ok(p.wagered(bet_type)),
    }
}

/// An all-in by `p`: the player after it, or the refusal.
pub open spec fn all_in_step(p: Player) -> Result<Player, PKError> {
    if p.all_in() {
        Err(PKError::InvalidTableAction)
    } else {
        match p.wager_error(PlayerState::AllIn(stack_of(p) as usize)) {
            Some(e) => Err(e),
            None => Ok(p.all_in_spec()),
        }
    }
}

/// A call by `p` facing a bet of `target`: with nothing to call a check,
/// with less than the call in the stack an all-in, otherwise a call up to
/// `target`; the player after it with the chips added, or the refusal.
pub open spec fn call_step(p: Player, target: usize) -> Result<(Player, usize), PKError> {
    let to_call = saturating_diff(target, p.bet);
    if to_call == 0 {
        if p.state.is_active() && p.state.permits(PlayerState::Check) {
            Ok((Player { state: PlayerState::Check, ..p }, 0usize))
        } else {
            Err(PKError::InvalidTableAction)
        }
    } else if p.chips < to_call {
        match all_in_step(p) {
            Ok(q) => Ok((q, p.chips)),
            Err(e) => Err(e),
        }
    } else {
        match wager_step(p, PlayerState::Call(target)) {
            Ok(q) => Ok((q, to_call)),
            Err(e) => Err(e),
        }
    }
}

impl Table {
    /// The smallest raise-to amount: the bet plus the minimum increment,
    /// capped at the largest `usize`.
    pub open spec fn min_raise_to_spec(&self) -> usize {
        if self.bet + self.min_raise_spec() <= usize::MAX {
            (self.bet + self.min_raise_spec()) as usize
        } else {
            usize::MAX
        }
    }

    /// The largest raise-to amount for `seat` in no-limit: everything the
    /// player holds; zero past the end of the ring.
    pub open spec fn max_raise_spec(&self, seat: u8) -> nat {
        if seat < self.seats@.len() {
            stack_of(self.seats@[seat as int].player)
        } else {
            0
        }
    }

    /// Why a voluntary raise to `amount` by `seat` is illegal, if it is:
    /// below the minimum raise, or above what the seat holds.
    pub open spec fn raise_error(&self, seat: u8, amount: usize) -> Option<PKError> {
        if amount < self.min_raise_to_spec() {
            Some(PKError::InsufficientIncrement)
        } else if amount > self.max_raise_spec(seat) {
            Some(PKError::ExceedsBettingCap)
        } else {
            None
        }
    }

    /// The refusal a wager to `amount` by `seat` meets before anything
    /// moves: none for a wager of everything the seat holds or more.
    pub open spec fn prevalidation(&self, seat: u8, amount: usize) -> Option<PKError> {
        if seat < self.seats@.len() && amount < stack_of(self.seats@[seat as int].player) {
            self.raise_error(seat, amount)
        } else {
            None
        }
    }

    /// The largest legal raise-to amount for `seat_number`: all it holds.
    fn max_raise_for(&self, seat_number: u8) -> (n: usize)
        requires
            self.wf(),
        ensures
            n == self.max_raise_spec(seat_number),
    {
        if (seat_number as usize) < self.seats.0.len() {
            proof {
                assert(self.seats@[seat_number as int].player.wf());
            }
            self.seats.0[seat_number as usize].player.total_chip_count()
        } else {
            0
        }
    }

    /// Checks a voluntary raise to `amount` for `seat_number`.
    fn validate_raise(&self, seat_number: u8, amount: usize) -> (r: Result<(), PKError>)
        requires
            self.wf(),
        ensures
            r == (match self.raise_error(seat_number, amount) {
                Some(e) => Err::<(), PKError>(e),
                None => Ok::<(), PKError>(()),
            }),
    {
        if amount < self.min_raise_to() {
            return Err(PKError::InsufficientIncrement);
        }
        if amount > self.max_raise_for(seat_number) {
            return Err(PKError::ExceedsBettingCap);
        }
        Ok(())
    }

    /// The legal raise-to range for `seat_number`, from the minimum raise
    /// to all it holds; `None` when no voluntary raise is legal.
    pub fn raise_bounds(&self, seat_number: u8) -> (r: Option<(usize, usize)>)
        requires
            self.wf(),
        ensures
            r == (if self.raise_error(seat_number, self.min_raise_to_spec()) is None {
                Some((self.min_raise_to_spec(), self.max_raise_spec(seat_number) as usize))
            } else {
                None
            }),
    {
        let min = self.min_raise_to();
        if self.validate_raise(seat_number, min).is_err() {
            return None;
        }
        Some((min, self.max_raise_for(seat_number)))
    }

    /// Records the increment of a bet or raise, unless the seat went all-in.
    fn set_raise_increment(&mut self, seat_number: u8, amount: usize)
        ensures
            *final(self) == (Table {
                raise_increment: if seat_number < old(self).seats@.len()
                    && old(self).seats@[seat_number as int].player.all_in() {
                    old(self).raise_increment
                } else {
                    amount
                },
                ..*old(self)
            }),
    {
        let is_all_in = match self.seats.get_seat(seat_number) {
            Some(seat) => seat.is_all_in(),
            None => false,
        };
        if !is_all_in {
            self.raise_increment = amount;
        }
    }

    /// What a bet or raise of the kind `bet_type` to `amount` by `seat`
    /// does: past the end of the ring it is refused with
    /// `InvalidSeatNumber`; short of everything the seat holds it must be a
    /// legal raise, or it is refused with nothing moved; then the player
    /// wagers, and on success the table bet becomes `amount`, the increment
    /// over the old bet is recorded unless the player went all-in, the raise
    /// is counted when it re-opens a standing bet (a bet) or always (a
    /// raise), and the wager and the next turn are logged.
    pub open spec fn wager_outcome(
        before: Table,
        seat: u8,
        bet_type: PlayerState,
        after: Table,
        r: Result<usize, PKError>,
    ) -> bool {
        let amount = bet_type.amount();
        if seat >= before.seats@.len() {
            r == Err::<usize, PKError>(PKError::InvalidSeatNumber) && Table::unchanged(before, after)
        } else {
            let p = before.seats@[seat as int].player;
            match before.prevalidation(seat, amount) {
                Some(e) => r == Err::<usize, PKError>(e) && Table::unchanged(before, after),
                None => match wager_step(p, bet_type) {
                    Err(e) => r == Err::<usize, PKError>(e) && Table::unchanged(before, after),
                    Ok(q) => {
                        &&& r == Ok::<usize, PKError>(q.chips)
                        &&& after.seats@ == with_player(before.seats@, seat as int, q)
                        &&& after.bet == amount
                        &&& after.raise_increment == (if q.all_in() {
                            before.raise_increment
                        } else {
                            saturating_diff(amount, before.bet)
                        })
                        &&& after.raises_this_street == (if bet_type is Raise || before.bet > 0 {
                            one_more(before.raises_this_street)
                        } else {
                            before.raises_this_street
                        })
                        &&& after == (Table {
                            seats: after.seats,
                            bet: after.bet,
                            raise_increment: after.raise_increment,
                            raises_this_street: after.raises_this_street,
                            event_log: after.event_log,
                            ..before
                        })
                        &&& after.event_log@ == before.event_log@ + seq![
                            if bet_type is Raise {
                                TableAction::Raise(seat, amount)
                            } else {
                                TableAction::Bet(seat, amount)
                            },
                            TableAction::ActionTo(after.next_to_act_spec()),
                        ]
                    },
                },
            }
        }
    }

    /// The common body of a bet and a raise to `amount`.
    fn wager(&mut self, seat_number: u8, amount: usize, raise: bool) -> (r: Result<usize, PKError>)
        requires
            old(self).wf(),
            old(self).seats@.len() > 0,
        ensures
            final(self).wf(),
            final(self).chips_on_table() == old(self).chips_on_table(),
            Table::wager_outcome(
                *old(self),
                seat_number,
                if raise {
                    PlayerState::Raise(amount)
                } else {
                    PlayerState::Bet(amount)
                },
                *final(self),
                r,
            ),
    {
        if (seat_number as usize) < self.seats.0.len() {
            proof {
                assert(self.seats@[seat_number as int].player.wf());
            }
            let stack = self.seats.0[seat_number as usize].player.total_chip_count();
            if amount < stack {
                match self.validate_raise(seat_number, amount) {
                    Ok(()) => {},
                    Err(e) => {
                        return Err(e);
                    },
                }
            }
        }
        let ghost before = *self;
        let ghost bet_type = if raise {
            PlayerState::Raise(amount)
        } else {
            PlayerState::Bet(amount)
        };
        let attempt = if raise {
            self.seats.act_raise(seat_number, amount)
        } else {
            self.seats.act_bet(seat_number, amount)
        };
        let remaining = match attempt {
            Ok(n) => n,
            Err(e) => {
                proof {
                    if seat_number < before.seats@.len() {
                        assert(self.seats@ =~= before.seats@);
                    }
                }
                return Err(e);
            },
        };
        proof {
            let p = before.seats@[seat_number as int].player;
            let q = self.seats@[seat_number as int].player;
            assert(q == p.wagered(bet_type));
            assert(self.seats@ =~= with_player(before.seats@, seat_number as int, q));
            lemma_holdings_update(before.seats@, seat_number as int, self.seats@[seat_number as int]);
        }
        let old_bet = self.bet;
        self.set_raise_increment(seat_number, amount.saturating_sub(old_bet));
        self.bet = amount;
        if raise || old_bet > 0 {
            if self.raises_this_street < 255 {
                self.raises_this_street = self.raises_this_street + 1;
            }
        }
        let entry = if raise {
            TableAction::Raise(seat_number, amount)
        } else {
            TableAction::Bet(seat_number, amount)
        };
        self.log(entry);
        let next = self.next_to_act();
        self.log(TableAction::ActionTo(next));
        proof {
            assert(self.event_log@ =~= before.event_log@ + seq![entry, TableAction::ActionTo(self.next_to_act_spec())]);
        }
        Ok(remaining)
    }

    /// Bets `amount` for `seat_number` and answers the stack left.
    pub fn act_bet(&mut self, seat_number: u8, amount: usize) -> (r: Result<usize, PKError>)
        requires
            old(self).wf(),
            old(self).seats@.len() > 0,
        ensures
            final(self).wf(),
            final(self).chips_on_table() == old(self).chips_on_table(),
            seat_number != old(self).next_to_act_spec() ==> Table::refused_out_of_turn(
                *old(self),
                *final(self),
                r,
                TableAction::InvalidPlayerAction(seat_number, PlayerState::Bet(amount)),
            ),
            seat_number == old(self).next_to_act_spec() ==> Table::wager_outcome(
                *old(self),
                seat_number,
                PlayerState::Bet(amount),
                *final(self),
                r,
            ),
    {
        if seat_number != self.next_to_act() {
            let err = TableAction::InvalidPlayerAction(seat_number, PlayerState::Bet(amount));
            self.log(err);
            return Err(PKError::TableActionOutOfOrder(err));
        }
        self.wager(seat_number, amount, false)
    }

    /// Raises to `amount` in total for `seat_number` and answers the stack
    /// left.
    pub fn act_raise(&mut self, seat_number: u8, amount: usize) -> (r: Result<usize, PKError>)
        requires
            old(self).wf(),
            old(self).seats@.len() > 0,
        ensures
            final(self).wf(),
            final(self).chips_on_table() == old(self).chips_on_table(),
            seat_number != old(self).next_to_act_spec() ==> Table::refused_out_of_turn(
                *old(self),
                *final(self),
                r,
                TableAction::InvalidPlayerAction(seat_number, PlayerState::Raise(amount)),
            ),
            seat_number == old(self).next_to_act_spec() ==> Table::wager_outcome(
                *old(self),
                seat_number,
                PlayerState::Raise(amount),
                *final(self),
                r,
            ),
    {
        if seat_number != self.next_to_act() {
            let err = TableAction::InvalidPlayerAction(seat_number, PlayerState::Raise(amount));
            self.log(err);
            return Err(PKError::TableActionOutOfOrder(err));
        }
        self.wager(seat_number, amount, true)
    }
}

impl Table {
    /// What a call by `seat` does: past the end of the ring it is refused
    /// with `InvalidSeatNumber`; otherwise the player calls the table bet
    /// as `call_step` says, or is refused with nothing moved, and on
    /// success the chips added and the next turn are logged.
    pub open spec fn call_outcome(before: Table, seat: u8, after: Table, r: Result<usize, PKError>) -> bool {
        if seat >= before.seats@.len() {
            r == Err::<usize, PKError>(PKError::InvalidSeatNumber) && Table::unchanged(before, after)
        } else {
            match call_step(before.seats@[seat as int].player, before.bet) {
                Err(e) => r == Err::<usize, PKError>(e) && Table::unchanged(before, after),
                Ok((q, added)) => {
                    &&& r == Ok::<usize, PKError>(added)
                    &&& after.seats@ == with_player(before.seats@, seat as int, q)
                    &&& Table::seat_acted(before, after, seq![TableAction::Call(seat, added)])
                },
            }
        }
    }

    /// Calls the table bet for `seat_number` and answers the chips added:
    /// a check when nothing is owed, an all-in for less when the stack is
    /// short of the call.
    pub fn act_call(&mut self, seat_number: u8) -> (r: Result<usize, PKError>)
        requires
            old(self).wf(),
            old(self).seats@.len() > 0,
        ensures
            final(self).wf(),
            final(self).chips_on_table() == old(self).chips_on_table(),
            seat_number != old(self).next_to_act_spec() ==> Table::refused_out_of_turn(
                *old(self),
                *final(self),
                r,
                TableAction::InvalidPlayerAction(seat_number, PlayerState::Call(0)),
            ),
            seat_number == old(self).next_to_act_spec() ==> Table::call_outcome(
                *old(self),
                seat_number,
                *final(self),
                r,
            ),
    {
        if seat_number != self.next_to_act() {
            let err = TableAction::InvalidPlayerAction(seat_number, PlayerState::Call(0));
            self.log(err);
            return Err(PKError::TableActionOutOfOrder(err));
        }
        let call_target = self.bet;
        if (seat_number as usize) >= self.seats.0.len() {
            return Err(PKError::InvalidSeatNumber);
        }
        let ghost before = *self;
        let idx = seat_number as usize;
        proof {
            assert(self.seats@[idx as int].player.wf());
        }
        let seat_bet = self.seats.0[idx].player.bet;
        let to_call = call_target.saturating_sub(seat_bet);
        let chips = self.seats.0[idx].player.chips;
        let added: usize;
        let seat = &mut self.seats.0[idx];
        if to_call == 0 {
            match seat.player.act_check() {
                Ok(()) => {
                    added = 0;
                },
                Err(e) => {
                    proof {
                        assert(self.seats@ =~= before.seats@);
                    }
                    return Err(e);
                },
            }
        } else if chips < to_call {
            match seat.player.act_all_in() {
                Ok(total) => {
                    added = total - seat_bet;
                },
                Err(e) => {
                    proof {
                        assert(self.seats@ =~= before.seats@);
                    }
                    return Err(e);
                },
            }
        } else {
            match seat.player.act_call(call_target) {
                Ok(_) => {
                    added = to_call;
                },
                Err(e) => {
                    proof {
                        assert(self.seats@ =~= before.seats@);
                    }
                    return Err(e);
                },
            }
        }
        proof {
            let p = before.seats@[idx as int].player;
            let q = self.seats@[idx as int].player;
            assert(call_step(p, call_target) == Ok::<(Player, usize), PKError>((q, added)));
            assert(self.seats@ =~= with_player(before.seats@, idx as int, q));
            lemma_holdings_update(before.seats@, idx as int, self.seats@[idx as int]);
            assert forall|j: int| 0 <= j < self.seats@.len() implies (#[trigger] self.seats@[j]).player.wf() by {
                if j != idx {
                    assert(self.seats@[j] == before.seats@[j]);
                }
            }
        }
        self.log(TableAction::Call(seat_number, added));
        let next = self.next_to_act();
        self.log(TableAction::ActionTo(next));
        proof {
            assert(self.event_log@ =~= before.event_log@ + seq![TableAction::Call(seat_number, added)] + seq![
                TableAction::ActionTo(self.next_to_act_spec()),
            ]);
        }
        Ok(added)
    }

    /// What an all-in by `seat` does: past the end of the ring it is
    /// refused with `InvalidSeatNumber`; otherwise the player goes all-in as
    /// `all_in_step` says, or is refused with nothing moved; on success the
    /// table bet rises to the player's bet if that is more, a rise of at
    /// least a full raise is recorded as the increment and counted, and the
    /// all-in and the next turn are logged; the player's bet is answered.
    pub open spec fn all_in_outcome(before: Table, seat: u8, after: Table, r: Result<usize, PKError>) -> bool {
        if seat >= before.seats@.len() {
            r == Err::<usize, PKError>(PKError::InvalidSeatNumber) && Table::unchanged(before, after)
        } else {
            match all_in_step(before.seats@[seat as int].player) {
                Err(e) => r == Err::<usize, PKError>(e) && Table::unchanged(before, after),
                Ok(q) => {
                    let new_bet = if q.bet > before.bet {
                        q.bet
                    } else {
                        before.bet
                    };
                    let rise = (new_bet - before.bet) as usize;
                    let reopens = rise >= before.min_raise_spec();
                    &&& r == Ok::<usize, PKError>(q.bet)
                    &&& after.seats@ == with_player(before.seats@, seat as int, q)
                    &&& after.bet == new_bet
                    &&& after.raise_increment == (if reopens {
                        rise
                    } else {
                        before.raise_increment
                    })
                    &&& after.raises_this_street == (if reopens {
                        one_more(before.raises_this_street)
                    } else {
                        before.raises_this_street
                    })
                    &&& after == (Table {
                        seats: after.seats,
                        bet: after.bet,
                        raise_increment: after.raise_increment,
                        raises_this_street: after.raises_this_street,
                        event_log: after.event_log,
                        ..before
                    })
                    &&& after.event_log@ == before.event_log@ + seq![
                        TableAction::AllIn(seat, q.bet),
                        TableAction::ActionTo(after.next_to_act_spec()),
                    ]
                },
            }
        }
    }

    /// Commits the whole stack of `seat_number` and answers the player's
    /// bet.
    pub fn act_all_in(&mut self, seat_number: u8) -> (r: Result<usize, PKError>)
        requires
            old(self).wf(),
            old(self).seats@.len() > 0,
        ensures
            final(self).wf(),
            final(self).chips_on_table() == old(self).chips_on_table(),
            seat_number != old(self).next_to_act_spec() ==> Table::refused_out_of_turn(
                *old(self),
                *final(self),
                r,
                TableAction::InvalidPlayerAction(
                    seat_number,
                    PlayerState::AllIn(old(self).max_raise_spec(seat_number) as usize),
                ),
            ),
            seat_number == old(self).next_to_act_spec() ==> Table::all_in_outcome(
                *old(self),
                seat_number,
                *final(self),
                r,
            ),
    {
        if seat_number != self.next_to_act() {
            let available = self.max_raise_for(seat_number);
            let err = TableAction::InvalidPlayerAction(seat_number, PlayerState::AllIn(available));
            self.log(err);
            return Err(PKError::TableActionOutOfOrder(err));
        }
        let ghost before = *self;
        let old_bet = self.bet;
        let amount = match self.seats.act_all_in(seat_number) {
            Ok(n) => n,
            Err(e) => {
                proof {
                    if seat_number < before.seats@.len() {
                        assert(self.seats@ =~= before.seats@);
                    }
                }
                return Err(e);
            },
        };
        proof {
            let q = self.seats@[seat_number as int].player;
            assert(self.seats@ =~= with_player(before.seats@, seat_number as int, q));
        }
        if amount > self.bet {
            self.bet = amount;
        }
        let rise = self.bet - old_bet;
        if rise >= self.min_raise() {
            self.raise_increment = rise;
            if self.raises_this_street < 255 {
                self.raises_this_street = self.raises_this_street + 1;
            }
        }
        self.log(TableAction::AllIn(seat_number, amount));
        let next = self.next_to_act();
        self.log(TableAction::ActionTo(next));
        proof {
            assert(self.event_log@ =~= before.event_log@ + seq![
                TableAction::AllIn(seat_number, amount),
                TableAction::ActionTo(self.next_to_act_spec()),
            ]);
        }
        Ok(amount)
    }
}

impl Table {
    /// What a check by `seat` answers, when it is the seat's turn.
    pub open spec fn check_result(before: Table, seat: u8) -> Result<usize, PKError> {
        if seat >= before.seats@.len() {
            Err(PKError::InvalidSeatNumber)
        } else {
            let p = before.seats@[seat as int].player;
            if p.bet >= max_bet(before.seats@) && p.state.is_active() && p.state.permits(
                PlayerState::Check,
            ) {
                Ok(p.chips)
            } else {
                Err(PKError::InvalidTableAction)
            }
        }
    }

    /// What a fold by `seat` answers, when it is the seat's turn.
    pub open spec fn fold_result(before: Table, seat: u8) -> Result<usize, PKError> {
        if seat >= before.seats@.len() {
            Err(PKError::InvalidSeatNumber)
        } else if before.seats@[seat as int].player.state.is_active() {
            Ok(before.seats@[seat as int].player.bet)
        } else {
            Err(PKError::InvalidTableAction)
        }
    }

    /// What a bet or raise of the kind `bet_type` by `seat` answers, when
    /// it is the seat's turn.
    pub open spec fn wager_result(before: Table, seat: u8, bet_type: PlayerState) -> Result<usize, PKError> {
        if seat >= before.seats@.len() {
            Err(PKError::InvalidSeatNumber)
        } else {
            match before.prevalidation(seat, bet_type.amount()) {
                Some(e) => Err(e),
                None => match wager_step(before.seats@[seat as int].player, bet_type) {
                    Err(e) => Err(e),
                    Ok(q) => Ok(q.chips),
                },
            }
        }
    }

    /// What a call by `seat` answers, when it is the seat's turn.
    pub open spec fn call_result(before: Table, seat: u8) -> Result<usize, PKError> {
        if seat >= before.seats@.len() {
            Err(PKError::InvalidSeatNumber)
        } else {
            match call_step(before.seats@[seat as int].player, before.bet) {
                Err(e) => Err(e),
                Ok((q, added)) => Ok(added),
            }
        }
    }

    /// What an all-in by `seat` answers, when it is the seat's turn.
    pub open spec fn all_in_result(before: Table, seat: u8) -> Result<usize, PKError> {
        if seat >= before.seats@.len() {
            Err(PKError::InvalidSeatNumber)
        } else {
            match all_in_step(before.seats@[seat as int].player) {
                Err(e) => Err(e),
                Ok(q) => Ok(q.bet),
            }
        }
    }
}

/// Every outcome answers what its result says.
pub proof fn lemma_outcomes_answer_results(before: Table, seat: u8, after: Table, r: Result<usize, PKError>)
    ensures
        Table::check_outcome(before, seat, after, r) ==> r == Table::check_result(before, seat),
        Table::fold_outcome(before, seat, after, r) ==> r == Table::fold_result(before, seat),
        Table::call_outcome(before, seat, after, r) ==> r == Table::call_result(before, seat),
        Table::all_in_outcome(before, seat, after, r) ==> r == Table::all_in_result(before, seat),
        forall|bet_type: PlayerState|
            Table::wager_outcome(before, seat, bet_type, after, r) ==> r == #[trigger] Table::wager_result(
                before,
                seat,
                bet_type,
            ),
{
}

} // verus!
