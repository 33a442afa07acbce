//! The table: seats, deck, board, pot and betting state, with the rules for
//! where the button and the blinds fall and who acts next.
use vstd::prelude::*;

use crate::card::{Bard, BoxedCards, Card};
use crate::casino::action::TableAction;
use crate::casino::game::ForcedBets;
use crate::casino::table::player::{new_uuid, Player};
use crate::casino::table::seat::Seat;
use crate::casino::table::seats::{
    count_where, holdings, is_active_seat, lemma_occupied_holdings_le, next_actor, occupied_holdings,
    players_wf, ring, scan, Seats,
    betting_complete,
};

pub mod actions;
pub mod dealing;
pub mod forced;
pub mod hand;
pub mod lifecycle;
pub mod open;
pub mod pkstate_interop;
pub mod player;
pub mod pot;
pub mod regulator;
pub mod seat;
pub mod seats;
pub mod showdown;
pub mod snapshot;
pub mod transition;
pub mod winnings;

verus! {

/// Where a hand stands.
#[derive(Clone, Copy, Debug, PartialEq, Eq, Hash)]
pub enum GamePhase {
    NewHand,
    ShuffleNewDeck,
    ForcedBets,
    DealHoleCards,
    BettingPreFlop,
    ConsolidatePreFlopBets,
    DealFlop,
    BettingFlop,
    ConsolidateFlopBets,
    DealTurn,
    BettingTurn,
    ConsolidateTurnBets,
    DealRiver,
    BettingRiver,
    Showdown,
}

impl GamePhase {
    /// Before the flop is dealt.
    #[verifier::allow_in_spec]
    pub fn is_preflop(&self) -> bool
        returns
            *self is NewHand || *self is ShuffleNewDeck || *self is ForcedBets
                || *self is DealHoleCards || *self is BettingPreFlop
                || *self is ConsolidatePreFlopBets,
    {
        matches!(
            *self,
            GamePhase::NewHand | GamePhase::ShuffleNewDeck | GamePhase::ForcedBets
                | GamePhase::DealHoleCards | GamePhase::BettingPreFlop
                | GamePhase::ConsolidatePreFlopBets
        )
    }

    #[verifier::allow_in_spec]
    pub fn is_flop(&self) -> bool
        returns
            *self is DealFlop || *self is BettingFlop || *self is ConsolidateFlopBets,
    {
        matches!(*self, GamePhase::DealFlop | GamePhase::BettingFlop | GamePhase::ConsolidateFlopBets)
    }

    #[verifier::allow_in_spec]
    pub fn is_turn(&self) -> bool
        returns
            *self is DealTurn || *self is BettingTurn || *self is ConsolidateTurnBets,
    {
        matches!(*self, GamePhase::DealTurn | GamePhase::BettingTurn | GamePhase::ConsolidateTurnBets)
    }

    #[verifier::allow_in_spec]
    pub fn is_river(&self) -> bool
        returns
            *self is DealRiver || *self is BettingRiver,
    {
        matches!(*self, GamePhase::DealRiver | GamePhase::BettingRiver)
    }
}

/// No seat is noted twice among the hole cards dealt.
pub open spec fn dealt_seats_distinct(v: Seq<(u8, BoxedCards)>) -> bool {
    forall|a: int, b: int| 0 <= a < b < v.len() ==> (#[trigger] v[a]).0 != (#[trigger] v[b]).0
}

/// A no-limit hold'em table.
#[derive(Clone, Debug, PartialEq, Eq)]
pub struct Table {
    pub id: u128,
    pub name: String,
    pub forced: ForcedBets,
    pub phase: GamePhase,
    pub seats: Seats,
    pub button: u8,
    /// The undealt cards, top first.
    pub deck: Vec<Card>,
    pub board: Vec<Card>,
    pub muck: Vec<Card>,
    /// Chips gathered in from earlier streets and folds.
    pub pot: usize,
    /// The bet to match on this street.
    pub bet: usize,
    /// The size of the last full raise on this street.
    pub raise_increment: usize,
    pub event_log: Vec<TableAction>,
    /// The chips on the table when the forced bets of the hand went in.
    pub hand_chip_total: usize,
    /// The hole cards as dealt, by seat, for the hand history.
    pub dealt_hole_cards: Vec<(u8, BoxedCards)>,
    pub raises_this_street: u8,
}

/// The first occupied seat at or clockwise after `start`; `start` itself
/// when every seat is empty.
pub open spec fn occupied_at_or_after(s: Seq<Seat>, start: nat) -> nat {
    match scan(s, start, |x: Seat| !x.vacant(), 0) {
        Some(i) => i,
        None => start,
    }
}

/// The occupied seats among the `k` seats clockwise after `start`, in order.
pub open spec fn occupied_after(s: Seq<Seat>, start: nat, k: nat) -> Seq<nat>
    decreases k,
{
    if k == 0 {
        Seq::empty()
    } else {
        let rest = occupied_after(s, start, (k - 1) as nat);
        let idx = ring(s.len(), start, k);
        if !s[idx].vacant() {
            rest.push(idx as nat)
        } else {
            rest
        }
    }
}

/// The `n`-th occupied seat clockwise after `start`, wrapping through the
/// occupied seats; plain arithmetic when every seat is empty.
pub open spec fn nth_occupied_after(s: Seq<Seat>, start: nat, n: nat) -> nat {
    let occupied = occupied_after(s, start, s.len());
    if occupied.len() == 0 {
        (start + n) % s.len()
    } else {
        occupied[((n - 1) as int) % (occupied.len() as int)]
    }
}

pub open spec fn occupied_count(s: Seq<Seat>) -> nat {
    count_where(s, |x: Seat| !x.vacant())
}

/// The small blind: heads-up the first occupied seat from the button,
/// otherwise the first occupied seat after it.
pub open spec fn small_blind_seat(s: Seq<Seat>, button: nat) -> nat {
    if occupied_count(s) <= 2 {
        occupied_at_or_after(s, button)
    } else {
        nth_occupied_after(s, button, 1)
    }
}

/// The big blind: heads-up the occupied seat after the small blind,
/// otherwise the second occupied seat after the button.
pub open spec fn big_blind_seat(s: Seq<Seat>, button: nat) -> nat {
    if occupied_count(s) <= 2 {
        nth_occupied_after(s, occupied_at_or_after(s, button), 1)
    } else {
        nth_occupied_after(s, button, 2)
    }
}

/// The first to act on a street: before the flop, heads-up the small blind
/// and otherwise the third occupied seat after the button; after the flop,
/// the first occupied seat after the button.
pub open spec fn utg_seat(s: Seq<Seat>, button: nat, preflop: bool) -> nat {
    if preflop {
        if occupied_count(s) <= 2 {
            occupied_at_or_after(s, button)
        } else {
            nth_occupied_after(s, button, 3)
        }
    } else {
        nth_occupied_after(s, button, 1)
    }
}

/// Whether `u` is the first occupied seat clockwise after `start`: it is
/// `d` places after `start` for some `d` from one to the ring's size, it is
/// occupied, and every seat between `start` and it is empty.
pub open spec fn first_occupied_after(s: Seq<Seat>, start: nat, u: nat) -> bool {
    exists|d: nat|
        1 <= d <= s.len() && u == ring(s.len(), start, d) && !s[u as int].vacant() && forall|e: nat|
            1 <= e < d ==> (#[trigger] s[ring(s.len(), start, e)]).vacant()
}

proof fn lemma_occupied_after_first(s: Seq<Seat>, start: nat, k: nat)
    requires
        s.len() > 0,
        k <= s.len(),
    ensures
        occupied_after(s, start, k).len() == 0 <==> forall|e: nat| 1 <= e <= k ==> (#[trigger] s[ring(s.len(), start, e)]).vacant(),
        occupied_after(s, start, k).len() > 0 ==> exists|d: nat|
            1 <= d <= k && occupied_after(s, start, k)[0] == ring(s.len(), start, d) && !s[ring(s.len(), start, d)].vacant()
                && forall|e: nat| 1 <= e < d ==> (#[trigger] s[ring(s.len(), start, e)]).vacant(),
    decreases k,
{
    if k > 0 {
        lemma_occupied_after_first(s, start, (k - 1) as nat);
        let rest = occupied_after(s, start, (k - 1) as nat);
        if rest.len() > 0 {
            let d = choose|d: nat|
                1 <= d <= k - 1 && rest[0] == ring(s.len(), start, d) && !s[ring(s.len(), start, d)].vacant()
                    && forall|e: nat| 1 <= e < d ==> (#[trigger] s[ring(s.len(), start, e)]).vacant();
            assert(occupied_after(s, start, k)[0] == rest[0]);
            assert(!s[ring(s.len(), start, d)].vacant());
        } else {
            if !s[ring(s.len(), start, k)].vacant() {
                assert(occupied_after(s, start, k)[0] == ring(s.len(), start, k));
            } else {
                assert forall|e: nat| 1 <= e <= k implies (#[trigger] s[ring(s.len(), start, e)]).vacant() by {
                    if e < k {
                    }
                }
            }
        }
    }
}

/// After the flop the first to act is the first occupied seat clockwise
/// after the button, however many seats are occupied.
pub proof fn lemma_postflop_utg_first_after_button(s: Seq<Seat>, button: nat, i: int)
    requires
        s.len() > 0,
        0 <= i < s.len(),
        !s[i].vacant(),
    ensures
        first_occupied_after(s, button, utg_seat(s, button, false)),
{
    let n = s.len();
    lemma_occupied_after_first(s, button, n);
    let m = n as int;
    let d0 = (((i - button - 1) % m) + 1) as nat;
    vstd::arithmetic::div_mod::lemma_mod_bound(i - button - 1, m);
    assert(1 <= d0 <= n);
    assert(ring(n, button, d0) == i) by {
        vstd::arithmetic::div_mod::lemma_add_mod_noop_right(button as int + 1, i - button - 1, m);
        assert(button + d0 == button as int + 1 + (i - button - 1) % m);
        vstd::arithmetic::div_mod::lemma_small_mod(i as nat, n);
    }
    assert(!s[ring(n, button, d0)].vacant());
    let occ = occupied_after(s, button, n);
    assert(occ.len() > 0);
    let d = choose|d: nat|
        1 <= d <= n && occ[0] == ring(n, button, d) && !s[ring(n, button, d)].vacant()
            && forall|e: nat| 1 <= e < d ==> (#[trigger] s[ring(n, button, e)]).vacant();
    assert(nth_occupied_after(s, button, 1) == occ[0]) by {
        vstd::arithmetic::div_mod::lemma_small_mod(0, occ.len());
        assert(((1nat - 1) as int) % (occ.len() as int) == 0);
    }
}

/// Whether a seat is the small blind, big blind or first to act, that seat
/// is one of the ring's.
pub proof fn lemma_occupied_after_bound(s: Seq<Seat>, start: nat, k: nat)
    requires
        s.len() > 0,
    ensures
        forall|j: int| 0 <= j < occupied_after(s, start, k).len() ==> (#[trigger] occupied_after(s, start, k)[j]) < s.len(),
        occupied_after(s, start, k).len() <= k,
    decreases k,
{
    if k > 0 {
        lemma_occupied_after_bound(s, start, (k - 1) as nat);
    }
}

impl Table {
    /// All the chips at the table: every stack, every street bet and the pot.
    pub open spec fn chips_on_table(&self) -> nat {
        holdings(self.seats@) + (self.pot as nat)
    }

    /// The table's bookkeeping: seat numbers fit in a `u8`, every player's
    /// accounts are in order, and the chips at the table fit in a `usize`.
    pub open spec fn wf(&self) -> bool {
        &&& self.seats@.len() <= 256
        &&& players_wf(self.seats@)
        &&& self.chips_on_table() <= usize::MAX
        &&& dealt_seats_distinct(self.dealt_hole_cards@)
    }

    /// The table's state apart from its event log.
    pub open spec fn same_but_log(&self, other: &Table) -> bool {
        &&& self.id == other.id && self.name == other.name && self.forced == other.forced
        &&& self.phase == other.phase && self.seats == other.seats && self.button == other.button
        &&& self.deck == other.deck && self.board == other.board && self.muck == other.muck
        &&& self.pot == other.pot && self.bet == other.bet
        &&& self.raise_increment == other.raise_increment
        &&& self.hand_chip_total == other.hand_chip_total
        &&& self.dealt_hole_cards == other.dealt_hole_cards
        &&& self.raises_this_street == other.raises_this_street
    }

    /// `count` empty seats of `cards_per` blank slots each.
    pub fn generate_seats(count: u8, cards_per: u8) -> (s: Seats)
        ensures
            s@.len() == count,
            forall|i: int| 0 <= i < count ==> (#[trigger] s@[i]).vacant() && s@[i].player.chips == 0
                && s@[i].player.bet == 0 && s@[i].player.chips_in_play == 0 && s@[i].cards.slots
                == cards_per && s@[i].cards.dealt@.len() == 0,
    {
        let mut v: Vec<Seat> = Vec::new();
        let mut i: u8 = 0;
        while i < count
            invariant
                i <= count,
                v@.len() == i,
                forall|j: int| 0 <= j < i ==> (#[trigger] v@[j]).vacant() && v@[j].player.chips == 0
                    && v@[j].player.bet == 0 && v@[j].player.chips_in_play == 0 && v@[j].cards.slots
                    == cards_per && v@[j].cards.dealt@.len() == 0,
            decreases count - i,
        {
            v.push(Seat::new_with_cards(Player::default(), BoxedCards::blanks(cards_per as usize)));
            i = i + 1;
        }
        Seats::new(v)
    }

    /// A six-seat table with no players and blinds of 50 and 100.
    pub fn default() -> (t: Table)
        ensures
            t.seats@.len() == 6,
            t.id == 0,
            t.forced == (ForcedBets { small_blind: 50, big_blind: 100, ante: 0, bring_in: 0 }),
            t.phase == GamePhase::NewHand,
            t.pot == 0 && t.bet == 0 && t.raise_increment == 0 && t.button == 0,
            t.deck@.len() == 52,
            t.wf(),
    {
        let seats = Table::generate_seats(6, 2);
        let t = Table {
            id: 0,
            name: String::from_str("Default No Limit Hold'em Table"),
            forced: ForcedBets::new(50, 100),
            phase: GamePhase::NewHand,
            seats,
            button: 0,
            deck: Card::fresh_deck(),
            board: Vec::new(),
            muck: Vec::new(),
            pot: 0,
            bet: 0,
            raise_increment: 0,
            event_log: Vec::new(),
            hand_chip_total: 0,
            dealt_hole_cards: Vec::new(),
            raises_this_street: 0,
        };
        proof {
            lemma_holdings_zero(t.seats@);
        }
        t
    }

    pub fn get_seat(&self, number: u8) -> (r: Option<&Seat>)
        ensures
            number < self.seats@.len() ==> r == Some(&self.seats@[number as int]),
            number >= self.seats@.len() ==> r is None,
    {
        self.seats.get_seat(number)
    }

    /// The handle of the player at `number`; empty past the end of the ring.
    pub fn get_seat_handle(&self, number: u8) -> (h: String)
        ensures
            number < self.seats@.len() ==> h@ == self.seats@[number as int].player.handle@,
            number >= self.seats@.len() ==> h@ == Seq::<char>::empty(),
    {
        match self.seats.get_seat(number) {
            Some(seat) => seat.player.handle.clone(),
            None => String::new(),
        }
    }

    pub fn get_phase(&self) -> (p: GamePhase)
        ensures
            p == self.phase,
    {
        self.phase
    }

    pub fn set_phase(&mut self, phase: GamePhase)
        ensures
            *final(self) == (Table { phase, ..*old(self) }),
    {
        self.phase = phase;
    }

    pub fn is_preflop(&self) -> (b: bool)
        ensures
            b == self.phase.is_preflop(),
    {
        self.phase.is_preflop()
    }

    pub fn is_flop(&self) -> (b: bool)
        ensures
            b == self.phase.is_flop(),
    {
        self.phase.is_flop()
    }

    pub fn is_turn(&self) -> (b: bool)
        ensures
            b == self.phase.is_turn(),
    {
        self.phase.is_turn()
    }

    pub fn is_river(&self) -> (b: bool)
        ensures
            b == self.phase.is_river(),
    {
        self.phase.is_river()
    }

    /// The smallest legal raise increment: the last full raise on this
    /// street, or the big blind when there has been none.
    pub fn min_raise(&self) -> (n: usize)
        ensures
            n == (if self.raise_increment > 0 {
                self.raise_increment
            } else {
                self.forced.big_blind
            }),
    {
        if self.raise_increment > 0 {
            self.raise_increment
        } else {
            self.forced.big_blind
        }
    }

    /// The smallest legal raise-to amount: the bet plus the minimum
    /// increment, capped at the largest `usize`.
    pub fn min_raise_to(&self) -> (n: usize)
        ensures
            n == (if self.bet + self.min_raise_spec() <= usize::MAX {
                (self.bet + self.min_raise_spec()) as usize
            } else {
                usize::MAX
            }),
    {
        self.bet.saturating_add(self.min_raise())
    }

    /// What `min_raise_to` answers.
    pub open spec fn min_raise_to_view(&self) -> usize {
        if self.bet + self.min_raise_spec() <= usize::MAX {
            (self.bet + self.min_raise_spec()) as usize
        } else {
            usize::MAX
        }
    }

    pub open spec fn min_raise_spec(&self) -> usize {
        if self.raise_increment > 0 {
            self.raise_increment
        } else {
            self.forced.big_blind
        }
    }

    /// What seat `player` must add to match the table bet.
    pub fn to_call(&self, player: u8) -> (n: usize)
        ensures
            n == self.to_call_spec(player),
    {
        let seat_bet = match self.seats.get_seat(player) {
            Some(s) => s.player.bet,
            None => 0,
        };
        self.bet.saturating_sub(seat_bet)
    }

    pub open spec fn to_call_spec(&self, player: u8) -> usize {
        let seat_bet = if player < self.seats@.len() {
            self.seats@[player as int].player.bet
        } else {
            0
        };
        if self.bet >= seat_bet {
            (self.bet - seat_bet) as usize
        } else {
            0
        }
    }

    /// The chips at the occupied seats plus the pot: an audit of the table.
    pub fn table_chip_count(&self) -> (n: usize)
        requires
            self.wf(),
        ensures
            n == occupied_holdings(self.seats@) + self.pot,
    {
        proof {
            lemma_occupied_holdings_le(self.seats@);
        }
        self.seats.total_chip_count() + self.pot
    }

    /// The pot together with every bet in front of the players.
    pub fn effective_pot(&self) -> (n: usize)
        requires
            self.wf(),
        ensures
            n == self.pot + crate::casino::table::seats::bets(self.seats@),
    {
        let mut n: usize = self.pot;
        let mut i: usize = 0;
        proof {
            crate::casino::table::seats::lemma_bets_le_holdings(self.seats@);
        }
        while i < self.seats.0.len()
            invariant
                i <= self.seats@.len(),
                self.wf(),
                crate::casino::table::seats::bets(self.seats@) <= holdings(self.seats@),
                n == self.pot + crate::casino::table::seats::bets(self.seats@.subrange(0, i as int)),
            decreases self.seats@.len() - i,
        {
            proof {
                assert(self.seats@.subrange(0, i + 1).drop_last() =~= self.seats@.subrange(0, i as int));
                crate::casino::table::seats::lemma_bets_prefix(self.seats@, i + 1);
            }
            n = n + self.seats.0[i].player.bet;
            i = i + 1;
        }
        proof {
            assert(self.seats@.subrange(0, self.seats@.len() as int) =~= self.seats@);
        }
        n
    }

    pub fn is_betting_complete(&self) -> (b: bool)
        ensures
            b == betting_complete(self.seats@),
    {
        self.seats.is_betting_complete()
    }

    /// Over when at most one player still contests the hand, or the river
    /// betting is complete.
    pub fn is_game_over(&self) -> (b: bool)
        ensures
            b == self.game_over(),
    {
        if self.seats.count_active_in_hand() <= 1 {
            return true;
        }
        self.is_river() && self.seats.is_betting_complete()
    }

    pub open spec fn game_over(&self) -> bool {
        count_where(self.seats@, |x: Seat| is_active_seat(x)) <= 1 || (self.phase.is_river()
            && betting_complete(self.seats@))
    }

    /// Some seat in the hand has chips in front on this street.
    pub fn is_betting_started(&self) -> (b: bool)
        ensures
            b == exists|i: int|
                0 <= i < self.seats@.len() && (#[trigger] self.seats@[i]).in_hand()
                    && self.seats@[i].player.bet > 0,
    {
        let mut i: usize = 0;
        while i < self.seats.0.len()
            invariant
                i <= self.seats@.len(),
                forall|j: int|
                    0 <= j < i ==> !((#[trigger] self.seats@[j]).in_hand() && self.seats@[j].player.bet > 0),
            decreases self.seats@.len() - i,
        {
            if self.seats.0[i].is_in_hand() && self.seats.0[i].player.bet > 0 {
                return true;
            }
            i = i + 1;
        }
        false
    }

    pub fn seats_are_dealt(&self) -> (b: bool)
        ensures
            b == forall|i: int|
                0 <= i < self.seats@.len() ==> (#[trigger] self.seats@[i]).vacant()
                    || !self.seats@[i].player.state.is_in_hand() || self.seats@[i].cards.dealt@.len()
                    >= self.seats@[i].cards.slots,
    {
        self.seats.are_dealt()
    }

    /// Seat `seat_number` holds at least `depth` dealt cards.
    pub fn has_card_at_depth(&self, seat_number: u8, depth: usize) -> (b: bool)
        ensures
            b == (seat_number < self.seats@.len() && self.seats@[seat_number as int].cards.dealt@.len()
                >= depth),
    {
        match self.seats.get_seat(seat_number) {
            Some(seat) => seat.cards.number_of_dealt_cards() >= depth,
            None => false,
        }
    }

    /// The phase of betting the board's size says the hand is in.
    pub fn determine_betting_phase(&self) -> (p: GamePhase)
        ensures
            p == (if self.board@.len() == 0 {
                GamePhase::BettingPreFlop
            } else if self.board@.len() == 3 {
                GamePhase::BettingFlop
            } else if self.board@.len() == 4 {
                GamePhase::BettingTurn
            } else if self.board@.len() == 5 {
                GamePhase::BettingRiver
            } else {
                GamePhase::Showdown
            }),
    {
        let n = self.board.len();
        if n == 0 {
            GamePhase::BettingPreFlop
        } else if n == 3 {
            GamePhase::BettingFlop
        } else if n == 4 {
            GamePhase::BettingTurn
        } else if n == 5 {
            GamePhase::BettingRiver
        } else {
            GamePhase::Showdown
        }
    }

    /// What the hand needs next: dealing the hole cards, betting on the
    /// street the board says, gathering a finished street's bets, or the
    /// showdown.
    pub fn determine_game_phase(&self) -> (p: GamePhase)
        ensures
            !self.seats_dealt_spec() ==> p == GamePhase::DealHoleCards,
            self.seats_dealt_spec() ==> p == (if self.board@.len() == 0 {
                if betting_complete(self.seats@) {
                    GamePhase::ConsolidatePreFlopBets
                } else {
                    GamePhase::BettingPreFlop
                }
            } else if self.board@.len() == 3 {
                if betting_complete(self.seats@) {
                    GamePhase::ConsolidateFlopBets
                } else {
                    GamePhase::BettingFlop
                }
            } else if self.board@.len() == 4 {
                if betting_complete(self.seats@) {
                    GamePhase::ConsolidateTurnBets
                } else {
                    GamePhase::BettingTurn
                }
            } else if self.board@.len() == 5 {
                if betting_complete(self.seats@) {
                    GamePhase::Showdown
                } else {
                    GamePhase::BettingRiver
                }
            } else {
                GamePhase::Showdown
            }),
    {
        if !self.seats.are_dealt() {
            return GamePhase::DealHoleCards;
        }
        let complete = self.seats.is_betting_complete();
        match self.determine_betting_phase() {
            GamePhase::BettingPreFlop => if complete {
                GamePhase::ConsolidatePreFlopBets
            } else {
                GamePhase::BettingPreFlop
            },
            GamePhase::BettingFlop => if complete {
                GamePhase::ConsolidateFlopBets
            } else {
                GamePhase::BettingFlop
            },
            GamePhase::BettingTurn => if complete {
                GamePhase::ConsolidateTurnBets
            } else {
                GamePhase::BettingTurn
            },
            GamePhase::BettingRiver => if complete {
                GamePhase::Showdown
            } else {
                GamePhase::BettingRiver
            },
            _ => GamePhase::Showdown,
        }
    }

    pub open spec fn seats_dealt_spec(&self) -> bool {
        forall|i: int|
            0 <= i < self.seats@.len() ==> (#[trigger] self.seats@[i]).vacant()
                || !self.seats@[i].player.state.is_in_hand() || self.seats@[i].cards.dealt@.len()
                >= self.seats@[i].cards.slots
    }

    /// The first occupied seat at or clockwise after `start`; `start` when
    /// every seat is empty.
    pub fn occupied_seat_at_or_after(&self, start: u8) -> (r: u8)
        requires
            self.seats@.len() <= 256,
        ensures
            self.seats@.len() == 0 ==> r == 0,
            self.seats@.len() > 0 ==> r == occupied_at_or_after(self.seats@, start as nat),
    {
        let size = self.seats.0.len();
        if size == 0 {
            return 0;
        }
        let ghost p = |x: Seat| !x.vacant();
        let mut step: usize = 0;
        while step < size
            invariant
                size == self.seats@.len() <= 256,
                size > 0,
                step <= size,
                p == (|x: Seat| !x.vacant()),
                scan(self.seats@, start as nat, p, 0) == scan(self.seats@, start as nat, p, step as nat),
            decreases size - step,
        {
            let idx = (start as usize + step) % size;
            proof {
                assert(idx == ring(self.seats@.len(), start as nat, step as nat));
            }
            if !self.seats.0[idx].is_empty() {
                return idx as u8;
            }
            proof {
                crate::casino::table::seats::lemma_scan_skip(self.seats@, start as nat, p, step as nat);
            }
            step = step + 1;
        }
        start
    }

    /// The number of occupied seats.
    pub fn count_occupied_seats(&self) -> (n: usize)
        ensures
            n == occupied_count(self.seats@),
    {
        self.seats.count_occupied()
    }

    /// The `n`-th occupied seat clockwise after `start`, wrapping through the
    /// occupied seats when there are fewer than `n`; plain arithmetic when
    /// every seat is empty.
    pub fn next_occupied_seat_after(&self, start: u8, n: usize) -> (r: u8)
        requires
            0 < self.seats@.len() <= 256,
            n >= 1,
            start as int + n < usize::MAX,
        ensures
            r == nth_occupied_after(self.seats@, start as nat, n as nat),
    {
        let size = self.seats.0.len();
        let mut occupied: Vec<u8> = Vec::new();
        let mut step: usize = 1;
        while step <= size
            invariant
                size == self.seats@.len(),
                0 < size <= 256,
                1 <= step <= size + 1,
                occupied@.len() == occupied_after(self.seats@, start as nat, (step - 1) as nat).len(),
                forall|j: int| 0 <= j < occupied@.len() ==> occupied@[j] as nat == #[trigger] occupied_after(self.seats@, start as nat, (step - 1) as nat)[j],
            decreases size + 1 - step,
        {
            let idx = (start as usize + step) % size;
            proof {
                assert(idx == ring(self.seats@.len(), start as nat, step as nat));
                lemma_occupied_after_bound(self.seats@, start as nat, (step - 1) as nat);
            }
            if !self.seats.0[idx].is_empty() {
                occupied.push(idx as u8);
            }
            step = step + 1;
        }
        proof {
            lemma_occupied_after_bound(self.seats@, start as nat, size as nat);
        }
        if occupied.len() == 0 {
            return ((start as usize + n) % size) as u8;
        }
        let k = (n - 1) % occupied.len();
        occupied[k]
    }

    /// The small blind's seat.
    pub fn determine_small_blind(&self) -> (r: u8)
        requires
            0 < self.seats@.len() <= 256,
        ensures
            r == small_blind_seat(self.seats@, self.button as nat),
    {
        if self.count_occupied_seats() <= 2 {
            self.occupied_seat_at_or_after(self.button)
        } else {
            self.next_occupied_seat_after(self.button, 1)
        }
    }

    /// The big blind's seat.
    pub fn determine_big_blind(&self) -> (r: u8)
        requires
            0 < self.seats@.len() <= 256,
        ensures
            r == big_blind_seat(self.seats@, self.button as nat),
    {
        if self.count_occupied_seats() <= 2 {
            let sb = self.occupied_seat_at_or_after(self.button);
            self.next_occupied_seat_after(sb, 1)
        } else {
            self.next_occupied_seat_after(self.button, 2)
        }
    }

    /// The first seat to act on the current street.
    pub fn determine_utg(&self) -> (r: u8)
        requires
            0 < self.seats@.len() <= 256,
        ensures
            r == utg_seat(self.seats@, self.button as nat, self.phase.is_preflop()),
            !self.phase.is_preflop() && (exists|i: int| 0 <= i < self.seats@.len() && !(#[trigger] self.seats@[i]).vacant())
                ==> first_occupied_after(self.seats@, self.button as nat, r as nat),
    {
        proof {
            if !self.phase.is_preflop() && (exists|i: int| 0 <= i < self.seats@.len() && !(#[trigger] self.seats@[i]).vacant()) {
                let i = choose|i: int| 0 <= i < self.seats@.len() && !(#[trigger] self.seats@[i]).vacant();
                lemma_postflop_utg_first_after_button(self.seats@, self.button as nat, i);
            }
        }
        if self.phase.is_preflop() {
            if self.count_occupied_seats() <= 2 {
                self.occupied_seat_at_or_after(self.button)
            } else {
                self.next_occupied_seat_after(self.button, 3)
            }
        } else {
            self.next_occupied_seat_after(self.button, 1)
        }
    }

    /// The seat whose turn it is: the next actor from the first seat to act,
    /// or that first seat itself when no seat can act.
    pub fn next_to_act(&self) -> (r: u8)
        requires
            0 < self.seats@.len() <= 256,
        ensures
            r == self.next_to_act_spec(),
    {
        let utg = self.determine_utg();
        match self.seats.next_to_act(utg) {
            Ok(n) => n,
            Err(_) => utg,
        }
    }

    pub open spec fn next_to_act_spec(&self) -> u8 {
        let utg = utg_seat(self.seats@, self.button as nat, self.phase.is_preflop());
        match next_actor(self.seats@, utg) {
            Some(i) => i as u8,
            None => utg as u8,
        }
    }

    /// Appends an entry to the event log.
    pub fn log(&mut self, action: TableAction)
        ensures
            final(self).event_log@ == old(self).event_log@.push(action),
            final(self).same_but_log(old(self)),
    {
        self.event_log.push(action);
    }

    /// How many times `action` appears in the event log.
    pub fn event_count(&self, action: &TableAction) -> (n: usize)
        ensures
            n == occurrences(self.event_log@, *action),
    {
        let mut n: usize = 0;
        let mut i: usize = 0;
        while i < self.event_log.len()
            invariant
                i <= self.event_log@.len(),
                n == occurrences(self.event_log@.subrange(0, i as int), *action),
                n <= i,
            decreases self.event_log@.len() - i,
        {
            proof {
                assert(self.event_log@.subrange(0, i + 1).drop_last() =~= self.event_log@.subrange(0, i as int));
            }
            if self.event_log[i] == *action {
                n = n + 1;
            }
            i = i + 1;
        }
        proof {
            assert(self.event_log@.subrange(0, self.event_log@.len() as int) =~= self.event_log@);
        }
        n
    }

    /// Whether both blinds have been posted this hand.
    pub fn have_posted_blinds(&self) -> (b: bool)
        ensures
            b == blinds_posted(self.event_log@),
    {
        let mut small = false;
        let mut big = false;
        let mut i: usize = 0;
        while i < self.event_log.len()
            invariant
                i <= self.event_log@.len(),
                small == exists|j: int| 0 <= j < i && is_small_blind_post(#[trigger] self.event_log@[j]),
                big == exists|j: int| 0 <= j < i && is_big_blind_post(#[trigger] self.event_log@[j]),
            decreases self.event_log@.len() - i,
        {
            if matches!(self.event_log[i], TableAction::ForcedBetSmallBlind(_, _)) {
                small = true;
                proof {
                    assert(is_small_blind_post(self.event_log@[i as int]));
                }
            }
            if matches!(self.event_log[i], TableAction::ForcedBetBigBlind(_, _)) {
                big = true;
                proof {
                    assert(is_big_blind_post(self.event_log@[i as int]));
                }
            }
            i = i + 1;
        }
        small && big
    }
}

pub open spec fn is_small_blind_post(a: TableAction) -> bool {
    a is ForcedBetSmallBlind
}

pub open spec fn is_big_blind_post(a: TableAction) -> bool {
    a is ForcedBetBigBlind
}

/// Both blinds appear in the log.
pub open spec fn blinds_posted(log: Seq<TableAction>) -> bool {
    &&& exists|i: int| 0 <= i < log.len() && is_small_blind_post(#[trigger] log[i])
    &&& exists|i: int| 0 <= i < log.len() && is_big_blind_post(#[trigger] log[i])
}

/// How many entries of `log` equal `a`.
pub open spec fn occurrences(log: Seq<TableAction>, a: TableAction) -> nat
    decreases log.len(),
{
    if log.len() == 0 {
        0
    } else {
        occurrences(log.drop_last(), a) + if log.last() == a {
            1nat
        } else {
            0nat
        }
    }
}

/// Seats with no chips anywhere hold nothing.
pub proof fn lemma_holdings_zero(s: Seq<Seat>)
    requires
        forall|i: int| 0 <= i < s.len() ==> (#[trigger] s[i]).player.chips == 0 && s[i].player.bet == 0,
    ensures
        holdings(s) == 0,
    decreases s.len(),
{
    if s.len() > 0 {
        lemma_holdings_zero(s.drop_last());
    }
}

} // verus!
