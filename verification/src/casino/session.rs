//! A session of many hands at one table, driven a step at a time: the
//! caller asks what comes next, hands in one player action per turn, and
//! ends (or, when it cannot go on, unwinds) each hand.
use vstd::prelude::*;

use crate::card::{cards_text, push_cards_text, shuffled, Card};
use crate::casino::action::PlayerAction;
use crate::casino::game::{ForcedBets, GameType};
use crate::casino::principal::Principal;
use crate::casino::table::lifecycle::refund_total;
use crate::casino::table::seats::{betting_complete, holdings};
use crate::casino::table::showdown::{committed, showdown_result};
use crate::casino::table::winnings::{HandRank, Winnings};
use crate::casino::table::{GamePhase, Table};
use crate::error::PKError;

verus! {

/// What the caller does next, as `next_step` answers it.
#[derive(Clone, Copy, Debug, PartialEq, Eq, Structural)]
pub enum SessionStep {
    /// The player at this seat acts next.
    PlayerToAct(u8),
    /// A street was dealt; ask again.
    StreetAdvanced,
    /// The hand is over: end it.
    HandComplete,
    /// Dealing or gathering the chips failed: the hand cannot go on and is
    /// to be unwound.
    Failed(PKError),
}

/// A session of hands at one table.
pub struct PokerSession {
    /// The table played at.
    pub table: Table,
    /// How many hands have been started.
    pub hand_number: u32,
    /// The deck as it stood right after the last shuffle, before any card
    /// was drawn; `None` before the first hand.
    pub shuffled_deck_str: Option<String>,
    /// The forced bets in effect when the current (or last) hand started.
    pub forced_at_hand_start: ForcedBets,
    /// Forced bets asked for during a hand, which apply from the next one.
    pub pending_forced: Option<ForcedBets>,
}

/// A seat as a viewer sees it: the hole cards only for the seat's own
/// player.
#[derive(Clone, Debug, PartialEq, Eq)]
pub struct SeatView {
    pub seat: u8,
    pub player_id: u128,
    pub chips: usize,
    pub to_call: usize,
    pub min_raise_to: usize,
    pub folded: bool,
    pub all_in: bool,
    pub hole_cards: Option<String>,
}

/// The table as a viewer sees it: no undealt card is in it.
#[derive(Clone, Debug, PartialEq, Eq)]
pub struct SessionView {
    pub game_type: GameType,
    pub phase: GamePhase,
    pub board: String,
    pub pot: usize,
    pub bet: usize,
    pub next_to_act: Option<u8>,
    pub seats: Vec<SeatView>,
}

/// How many more times a street can be dealt onto a board of `n` cards.
pub open spec fn streets_left(n: nat) -> nat {
    if n <= 5 {
        (6 - n) as nat
    } else {
        0
    }
}

/// Whether the deck is too short for the street that comes next on the
/// board: four cards (a burn and the flop) before the flop, two (a burn
/// and the card) before the turn and the river.
pub open spec fn short_for_next_street(t: Table) -> bool {
    (t.board@.len() == 0 && t.deck@.len() < 4) || ((t.board@.len() == 3 || t.board@.len() == 4) && t.deck@.len() < 2)
}

/// One move of a hand played through: the table the move was asked on, the
/// seat asked, the move given and the table after it, with the handler's
/// answer.
pub type MoveStep = (Table, u8, PlayerAction, Table, Result<usize, PKError>);

/// Whether `m` is a move that `on_action` chose for the seat to act at its
/// table and that was then handed to the seat's handler.
pub open spec fn asked_and_applied<F: Fn(&Table, u8) -> PlayerAction>(on_action: F, m: MoveStep) -> bool {
    &&& m.1 == m.0.next_to_act_spec()
    &&& call_ensures(on_action, (&m.0, m.1), m.2)
    &&& Table::action_outcome(m.0, m.1, m.2, m.3, m.4)
}

/// Whether `moves` are the moves of a hand played through with
/// `on_action`, in order: each chosen by it for the seat to act and handed
/// to that seat's handler, each accepted but a last one that ended the hand
/// with its refusal `r`; all accepted when `r` is `Ok`.
pub open spec fn played_as_asked<F: Fn(&Table, u8) -> PlayerAction>(
    on_action: F,
    moves: Seq<MoveStep>,
    r: Result<Vec<Winnings>, PKError>,
) -> bool {
    &&& forall|k: int| 0 <= k < moves.len() ==> asked_and_applied(on_action, #[trigger] moves[k])
    &&& forall|k: int| 0 <= k < moves.len() - 1 ==> (#[trigger] moves[k]).4 is Ok
    &&& r is Ok ==> forall|k: int| 0 <= k < moves.len() ==> (#[trigger] moves[k]).4 is Ok
    &&& moves.len() > 0 && moves.last().4 is Err ==> (moves.last().4 matches Err(e) && r == Err::<Vec<Winnings>, PKError>(
        e,
    ))
}

/// A settlement's refusal as a refusal of the start.
pub open spec fn unit_err(r: Result<Vec<Winnings>, PKError>) -> Result<(), PKError> {
    match r {
        Ok(_) => Ok(()),
        Err(e) => Err(e),
    }
}

/// Whether `next_step` answers that the hand at `t` is complete: its game
/// is over, or the river is out and its betting complete.
pub open spec fn hand_step_complete(t: Table) -> bool {
    t.game_over() || (betting_complete(t.seats@) && t.board@.len() >= 5)
}

/// Once a step reports the hand complete, asking again reports it again:
/// the step leaves the table as it was, and whether the hand is complete is
/// read off the table alone.
pub proof fn lemma_complete_step_repeats(s1: PokerSession, s2: PokerSession)
    requires
        hand_step_complete(s1.table),
        s2.table == s1.table,
    ensures
        hand_step_complete(s2.table),
{
}

/// Whether `viewer` is the player with id `id`.
pub open spec fn owned_by(viewer: Option<Principal>, id: u128) -> bool {
    match viewer {
        Some(p) => p.0 == id,
        None => false,
    }
}

impl PokerSession {
    /// The session's bookkeeping: its table is in order and has seats.
    pub open spec fn wf(&self) -> bool {
        self.table.wf() && 0 < self.table.seats@.len()
    }

    /// Whether a hand has been started and has not been reset.
    pub open spec fn in_progress(&self) -> bool {
        self.hand_number > 0 && !(self.table.phase is NewHand)
    }

    /// A session at `table`, no hand started.
    pub fn new(table: Table) -> (s: PokerSession)
        ensures
            s.table == table,
            s.hand_number == 0,
            s.shuffled_deck_str is None,
            s.forced_at_hand_start == table.forced,
            s.pending_forced is None,
    {
        let forced_at_hand_start = table.forced;
        PokerSession { table, hand_number: 0, shuffled_deck_str: None, forced_at_hand_start, pending_forced: None }
    }

    /// The forced bets in effect when the current (or last) hand started.
    pub fn forced_at_hand_start(&self) -> (f: ForcedBets)
        ensures
            f == self.forced_at_hand_start,
    {
        self.forced_at_hand_start
    }

    /// Sets the forced bets: at once between hands, from the next hand
    /// while one is played.
    pub fn set_blinds(&mut self, forced: ForcedBets)
        ensures
            old(self).in_progress() ==> final(self).pending_forced == Some(forced) && final(self).table
                == old(self).table,
            !old(self).in_progress() ==> final(self).table == (Table { forced, ..old(self).table })
                && final(self).pending_forced == old(self).pending_forced,
            final(self).hand_number == old(self).hand_number,
            final(self).forced_at_hand_start == old(self).forced_at_hand_start,
            final(self).shuffled_deck_str == old(self).shuffled_deck_str,
    {
        if self.is_hand_in_progress() {
            self.pending_forced = Some(forced);
        } else {
            self.table.forced = forced;
        }
    }

    /// Empties the seats of players with no chips left and answers them,
    /// in seat order.
    pub fn eliminate_busted(&mut self) -> (v: Vec<u8>)
        requires
            old(self).table.wf(),
        ensures
            final(self).table.wf(),
            final(self).table.seats@.len() == old(self).table.seats@.len(),
            final(self).hand_number == old(self).hand_number,
            final(self).pending_forced == old(self).pending_forced,
            final(self).forced_at_hand_start == old(self).forced_at_hand_start,
            forall|k: int| 0 <= k < v@.len() ==> (#[trigger] v@[k]) < old(self).table.seats@.len()
                && crate::casino::table::lifecycle::busted(old(self).table.seats@[v@[k] as int]),
            forall|i: int|
                0 <= i < old(self).table.seats@.len() && crate::casino::table::lifecycle::busted(
                    #[trigger] old(self).table.seats@[i],
                ) ==> v@.contains(i as u8),
            forall|a: int, b: int| 0 <= a < b < v@.len() ==> v@[a] < v@[b],
            forall|i: int|
                0 <= i < old(self).table.seats@.len() ==> if crate::casino::table::lifecycle::busted(
                    old(self).table.seats@[i],
                ) {
                    (#[trigger] final(self).table.seats@[i]).vacant() && final(self).table.seats@[i].player.chips == 0
                } else {
                    final(self).table.seats@[i] == old(self).table.seats@[i]
                },
            final(self).table == (Table { seats: final(self).table.seats, ..old(self).table }),
    {
        self.table.eliminate_busted()
    }

    /// How many occupied seats have chips.
    pub fn count_funded(&self) -> (n: usize)
        requires
            self.table.wf(),
        ensures
            n == crate::casino::table::seats::count_where(
                self.table.seats@,
                |x: crate::casino::table::seat::Seat| crate::casino::table::lifecycle::funded(x),
            ),
    {
        self.table.count_funded()
    }

    /// Starts a hand: the forced bets asked for meanwhile take effect and
    /// are noted as this hand's, the deck is shuffled and its order noted,
    /// the blinds are posted and the hole cards dealt; the hand count goes
    /// up once all that is done. A failed step is answered.
    pub fn start_hand(&mut self) -> (r: Result<(), PKError>)
        requires
            old(self).wf(),
            old(self).hand_number < u32::MAX,
        ensures
            final(self).wf(),
            final(self).table.chips_on_table() == old(self).table.chips_on_table(),
            final(self).pending_forced is None,
            final(self).forced_at_hand_start == (match old(self).pending_forced {
                Some(f) => f,
                None => old(self).table.forced,
            }),
            r is Ok ==> final(self).table.forced == final(self).forced_at_hand_start,
            final(self).shuffled_deck_str matches Some(t) && exists|d: Seq<Card>|
                d.to_multiset() == old(self).table.deck@.to_multiset() && t@ == #[trigger] cards_text(d),
            r is Ok ==> final(self).hand_number == old(self).hand_number + 1,
            r is Err ==> final(self).hand_number == old(self).hand_number,
            r is Ok ==> final(self).in_progress(),
            exists|m0: Table|
                {
                    &&& #[trigger] crate::casino::table::dealing::hand_dealt(m0, final(self).table, r)
                    &&& m0 == (Table { deck: m0.deck, forced: final(self).forced_at_hand_start, ..old(self).table })
                    &&& m0.deck@.to_multiset() == old(self).table.deck@.to_multiset()
                    &&& final(self).shuffled_deck_str matches Some(t) && t@ == cards_text(m0.deck@)
                    &&& m0.deck@.len() >= 2 * m0.seats@.len() && crate::casino::table::dealing::room_for_two(m0.seats@)
                        ==> (r matches Err(e) ==> crate::casino::table::dealing::blinds_refused(m0, e))
                },
    {
        match self.pending_forced {
            Some(pending) => {
                self.table.forced = pending;
            },
            None => {},
        }
        self.pending_forced = None;
        self.forced_at_hand_start = self.table.forced;
        let mut deck: Vec<Card> = Vec::new();
        std::mem::swap(&mut deck, &mut self.table.deck);
        self.table.deck = shuffled(deck);
        let mut text = String::new();
        push_cards_text(&mut text, &self.table.deck);
        self.shuffled_deck_str = Some(text);
        let ghost m0 = self.table;
        proof {
            assert(m0 == (Table { deck: m0.deck, forced: self.forced_at_hand_start, ..old(self).table }));
            assert(m0.deck@.to_multiset() == old(self).table.deck@.to_multiset());
            assert(self.shuffled_deck_str matches Some(t) && t@ == cards_text(m0.deck@));
        }
        let rf = self.table.act_forced_bets();
        let ghost mf = self.table;
        proof {
            let (m1, m2, m3, r1, r2) = choose|m1: Table, m2: Table, m3: Table, r1: Result<(), PKError>, r2: Result<(), PKError>|
                Table::forced_bets_steps(m0, m1, m2, m3, r1, r2, mf, rf);
            assert(Table::forced_bets_steps(m0, m1, m2, m3, r1, r2, mf, rf));
            if rf is Err {
                assert(crate::casino::table::dealing::hand_dealt(m0, mf, rf));
            }
        }
        match rf {
            Ok(_) => {},
            Err(e) => {
                proof {
                    let (m1, m2, m3, r1, r2) = choose|m1: Table, m2: Table, m3: Table, r1: Result<(), PKError>, r2: Result<(), PKError>|
                        Table::forced_bets_steps(m0, m1, m2, m3, r1, r2, mf, rf);
                    assert(Table::forced_bets_steps(m0, m1, m2, m3, r1, r2, mf, Err::<(), PKError>(e)));
                    assert(crate::casino::table::dealing::blinds_refused(m0, e));
                }
                return Err(e);
            },
        }
        let rd = self.table.deal_cards_to_seats();
        proof {
            let (m1, m2, m3, r1, r2) = choose|m1: Table, m2: Table, m3: Table, r1: Result<(), PKError>, r2: Result<(), PKError>|
                Table::forced_bets_steps(m0, m1, m2, m3, r1, r2, mf, rf);
            assert(Table::forced_bets_steps(m0, m1, m2, m3, r1, r2, mf, rf));
            assert(crate::casino::table::dealing::hand_dealt(m0, self.table, rd));
            if m0.deck@.len() >= 2 * m0.seats@.len() && crate::casino::table::dealing::room_for_two(m0.seats@) {
                crate::casino::table::dealing::lemma_posting_keeps_room(m0, m1, m2, m3, r1, r2, mf);
                assert(rd is Ok);
            }
        }
        match rd {
            Ok(_) => {},
            Err(e) => {
                return Err(e);
            },
        }
        self.hand_number = self.hand_number + 1;
        proof {
            let (m1, m2, m3, r1, r2) = choose|m1: Table, m2: Table, m3: Table, r1: Result<(), PKError>, r2: Result<(), PKError>|
                Table::forced_bets_steps(m0, m1, m2, m3, r1, r2, mf, rf);
            assert(Table::forced_bets_steps(m0, m1, m2, m3, r1, r2, mf, rf));
            assert(crate::casino::table::dealing::hand_dealt(m0, self.table, Ok::<(), PKError>(())));
        }
        Ok(())
    }

    /// Whether the hand is over.
    pub fn is_hand_complete(&self) -> (b: bool)
        ensures
            b == self.table.game_over(),
    {
        self.table.is_game_over()
    }

    /// Whether a hand has been started and has not been reset.
    pub fn is_hand_in_progress(&self) -> (b: bool)
        ensures
            b == self.in_progress(),
    {
        self.hand_number > 0 && !matches!(self.table.phase, GamePhase::NewHand)
    }

    /// Ends the betting street: the bets go in and the next street is
    /// dealt; `InvalidAction` when no street is left, and the table's
    /// error when a step fails.
    fn advance_street(&mut self) -> (r: Result<(), PKError>)
        requires
            old(self).wf(),
        ensures
            final(self).forced_at_hand_start == old(self).forced_at_hand_start,
            final(self).pending_forced == old(self).pending_forced,
            final(self).table.forced == old(self).table.forced,
            final(self).wf(),
            final(self).table.chips_on_table() == old(self).table.chips_on_table(),
            final(self).hand_number == old(self).hand_number,
            final(self).table.board@.len() >= old(self).table.board@.len(),
            r is Ok ==> final(self).table.board@.len() > old(self).table.board@.len()
                && final(self).table.board@.len() <= 5,
            !(old(self).table.board@.len() == 0 || old(self).table.board@.len() == 3
                || old(self).table.board@.len() == 4) ==> r == Err::<(), PKError>(PKError::InvalidAction)
                && final(self).table == old(self).table,
            !old(self).table.game_over() && (old(self).table.board@.len() == 0 || old(self).table.board@.len() == 3
                || old(self).table.board@.len() == 4) ==> r != Err::<(), PKError>(PKError::InvalidAction),
            !old(self).table.game_over() && betting_complete(old(self).table.seats@) && short_for_next_street(
                old(self).table,
            ) ==> r == Err::<(), PKError>(PKError::NotEnoughCards),
            !old(self).table.game_over() && betting_complete(old(self).table.seats@) && !short_for_next_street(
                old(self).table,
            ) && (old(self).table.board@.len() == 0 || old(self).table.board@.len() == 3
                || old(self).table.board@.len() == 4) ==> r is Ok,
            r is Ok ==> {
                let n = old(self).table.board@.len();
                &&& n == 0 ==> final(self).table.board@.len() == 3
                &&& n == 3 ==> final(self).table.board@.len() == 4 && final(self).table.board@.subrange(0, 3)
                    == old(self).table.board@
                &&& n == 4 ==> final(self).table.board@.len() == 5 && final(self).table.board@.subrange(0, 4)
                    == old(self).table.board@
            },
    {
        let n = self.table.board.len();
        if !(n == 0 || n == 3 || n == 4) {
            return Err(PKError::InvalidAction);
        }
        match self.table.bring_it_in() {
            Ok(_) => {},
            Err(e) => {
                return Err(e);
            },
        }
        let ghost collected = self.table;
        let r = if n == 0 {
            self.table.deal_flop()
        } else if n == 3 {
            self.table.deal_turn()
        } else {
            self.table.deal_river()
        };
        proof {
            assert(self.table.seats == collected.seats && self.table.pot == collected.pot);
        }
        r
    }

    /// The seat to act next, once any street whose betting is complete has
    /// been dealt out; `None` once the hand is over or no street is left. A
    /// failed deal is answered, not taken for the end of the hand.
    pub fn next_actor(&mut self) -> (r: Result<Option<u8>, PKError>)
        requires
            old(self).wf(),
        ensures
            final(self).forced_at_hand_start == old(self).forced_at_hand_start,
            final(self).pending_forced == old(self).pending_forced,
            final(self).table.forced == old(self).table.forced,
            final(self).wf(),
            final(self).table.chips_on_table() == old(self).table.chips_on_table(),
            final(self).hand_number == old(self).hand_number,
            old(self).table.game_over() ==> r == Ok::<Option<u8>, PKError>(None) && final(self).table
                == old(self).table,
            r matches Ok(Some(s)) ==> s == final(self).table.next_to_act_spec() && !final(self).table.game_over()
                && !betting_complete(final(self).table.seats@),
            r == Ok::<Option<u8>, PKError>(None) ==> final(self).table.game_over() || final(self).table.board@.len() >= 5,
            !old(self).table.game_over() && betting_complete(old(self).table.seats@) && short_for_next_street(
                old(self).table,
            ) ==> r == Err::<Option<u8>, PKError>(PKError::NotEnoughCards),
    {
        if self.is_hand_complete() {
            return Ok(None);
        }
        while self.table.seats.is_betting_complete()
            invariant
                self.wf(),
                self.table.chips_on_table() == old(self).table.chips_on_table(),
                self.hand_number == old(self).hand_number,
                !self.table.game_over(),
                !old(self).table.game_over(),
                self.forced_at_hand_start == old(self).forced_at_hand_start,
                self.pending_forced == old(self).pending_forced,
                self.table.forced == old(self).table.forced,
                betting_complete(old(self).table.seats@) && short_for_next_street(old(self).table) ==> self.table
                    == old(self).table,
            decreases streets_left(self.table.board@.len()),
        {
            let ghost before = self.table;
            match self.advance_street() {
                Ok(_) => {},
                Err(e) => {
                    if e == PKError::InvalidAction && self.table.is_last_street() {
                        return Ok(None);
                    }
                    return Err(e);
                },
            }
            if self.is_hand_complete() {
                return Ok(None);
            }
        }
        Ok(Some(self.table.next_to_act()))
    }

    /// Hands a player's action to the table.
    pub fn apply_action(&mut self, seat: u8, action: PlayerAction) -> (r: Result<(), PKError>)
        requires
            old(self).wf(),
        ensures
            final(self).wf(),
            final(self).hand_number == old(self).hand_number,
            final(self).table.chips_on_table() == old(self).table.chips_on_table(),
            r == Table::action_result(old(self).table, seat, action),
            exists|inner: Result<usize, PKError>|
                #[trigger] Table::action_outcome(old(self).table, seat, action, final(self).table, inner) && r
                    == crate::casino::table::transition::unit_of(inner),
            final(self).pending_forced == old(self).pending_forced,
            final(self).forced_at_hand_start == old(self).forced_at_hand_start,
            final(self).shuffled_deck_str == old(self).shuffled_deck_str,
    {
        self.table.apply_action(seat, action)
    }

    /// What the caller does next: end the hand once it is over; once the
    /// betting is complete, deal the next street (or, on the river, end
    /// the hand); otherwise let the next player act. A failed deal is
    /// answered as `Failed`.
    pub fn next_step(&mut self) -> (step: SessionStep)
        requires
            old(self).wf(),
        ensures
            final(self).forced_at_hand_start == old(self).forced_at_hand_start,
            final(self).pending_forced == old(self).pending_forced,
            final(self).table.forced == old(self).table.forced,
            final(self).wf(),
            final(self).table.chips_on_table() == old(self).table.chips_on_table(),
            final(self).hand_number == old(self).hand_number,
            old(self).table.game_over() ==> step == SessionStep::HandComplete && final(self).table == old(self).table,
            !old(self).table.game_over() && !betting_complete(old(self).table.seats@) ==> step
                == SessionStep::PlayerToAct(old(self).table.next_to_act_spec()) && final(self).table == old(self).table,
            step == SessionStep::StreetAdvanced ==> final(self).table.board@.len() > old(self).table.board@.len(),
            step == SessionStep::HandComplete ==> old(self).table.game_over() || final(self).table.board@.len() >= 5,
            step matches SessionStep::Failed(e) ==> e != PKError::InvalidAction || final(self).table.board@.len() < 5,
            !old(self).table.game_over() && betting_complete(old(self).table.seats@) && short_for_next_street(
                old(self).table,
            ) ==> step == SessionStep::Failed(PKError::NotEnoughCards),
            !old(self).table.game_over() && betting_complete(old(self).table.seats@) && !short_for_next_street(
                old(self).table,
            ) && (old(self).table.board@.len() == 0 || old(self).table.board@.len() == 3
                || old(self).table.board@.len() == 4) ==> step == SessionStep::StreetAdvanced,
            step == SessionStep::StreetAdvanced ==> {
                let n = old(self).table.board@.len();
                &&& n == 0 ==> final(self).table.board@.len() == 3
                &&& n == 3 ==> final(self).table.board@.len() == 4 && final(self).table.board@.subrange(0, 3)
                    == old(self).table.board@
                &&& n == 4 ==> final(self).table.board@.len() == 5 && final(self).table.board@.subrange(0, 4)
                    == old(self).table.board@
            },
            step == SessionStep::HandComplete ==> final(self).table == old(self).table,
            step == SessionStep::HandComplete <==> hand_step_complete(old(self).table),
            step == SessionStep::HandComplete && (old(self).table.board@.len() >= 5 ==> old(self).table.phase.is_river())
                ==> final(self).table.game_over(),
    {
        if self.is_hand_complete() {
            return SessionStep::HandComplete;
        }
        if self.table.seats.is_betting_complete() {
            return match self.advance_street() {
                Ok(_) => SessionStep::StreetAdvanced,
                Err(e) => {
                    if e == PKError::InvalidAction && self.table.is_last_street() {
                        SessionStep::HandComplete
                    } else {
                        SessionStep::Failed(e)
                    }
                },
            };
        }
        SessionStep::PlayerToAct(self.table.next_to_act())
    }

    /// Plays a hand through: starts it, asks `on_action` for the move of
    /// each seat whose turn it is, dealing each street as its betting
    /// closes, until nobody is left to act; then settles it with the hands
    /// ranked by `rank`. The first refusal of any step is the answer; a
    /// settlement whose chips do not add up within the machine's integers is
    /// refused with `ChipAuditFailed`, and a hand whose moves outrun the
    /// machine's count of them with `ActionIsntFinished`.
    pub fn run_hand<F: Fn(&Table, u8) -> PlayerAction, R: Fn(&Table) -> Vec<HandRank>>(
        &mut self,
        on_action: F,
        rank: R,
    ) -> (r: Result<Vec<Winnings>, PKError>)
        requires
            old(self).wf(),
            old(self).hand_number < u32::MAX,
            forall|t: &Table, s: u8| call_requires(on_action, (t, s)),
            forall|t: &Table| call_requires(rank, (t,)),
            forall|t: &Table, v: Vec<HandRank>| call_ensures(rank, (t,), v) ==> v@.len() >= t.seats@.len(),
        ensures
            final(self).wf(),
            r is Ok ==> !final(self).in_progress() && final(self).hand_number == old(self).hand_number + 1,
            r is Err ==> final(self).hand_number <= old(self).hand_number + 1,
            final(self).hand_number == old(self).hand_number ==> r is Err && exists|m0: Table, t: Table|
                {
                    &&& #[trigger] crate::casino::table::dealing::hand_dealt(m0, t, unit_err(r))
                    &&& m0.deck@.to_multiset() == old(self).table.deck@.to_multiset()
                    &&& m0.seats == old(self).table.seats
                },
            exists|moves: Seq<MoveStep>| #[trigger] played_as_asked(on_action, moves, r),
            r is Ok ==> exists|t: Table, ranks: Seq<HandRank>|
                {
                    &&& #[trigger] showdown_result(t, ranks, r, final(self).table.chips_on_table())
                    &&& crate::casino::table::showdown::showdown_paid(t, ranks, r, final(self).table.seats@)
                    &&& t.chips_on_table() == old(self).table.chips_on_table()
                    &&& ranks.len() >= t.seats@.len()
                },
    {
        let ghost mut trace: Seq<MoveStep> = Seq::empty();
        match self.start_hand() {
            Ok(_) => {},
            Err(e) => {
                proof {
                    let m0 = choose|m0: Table|
                        {
                            &&& #[trigger] crate::casino::table::dealing::hand_dealt(m0, self.table, Err::<(), PKError>(e))
                            &&& m0 == (Table { deck: m0.deck, forced: self.forced_at_hand_start, ..old(self).table })
                            &&& m0.deck@.to_multiset() == old(self).table.deck@.to_multiset()
                            &&& self.shuffled_deck_str matches Some(t) && t@ == cards_text(m0.deck@)
                            &&& m0.deck@.len() >= 2 * m0.seats@.len() && crate::casino::table::dealing::room_for_two(m0.seats@)
                                ==> crate::casino::table::dealing::blinds_refused(m0, e)
                        };
                    assert(unit_err(Err::<Vec<Winnings>, PKError>(e)) == Err::<(), PKError>(e));
                    assert(crate::casino::table::dealing::hand_dealt(m0, self.table, unit_err(Err::<Vec<Winnings>, PKError>(e))));
                    assert(played_as_asked(on_action, trace, Err::<Vec<Winnings>, PKError>(e)));
                }
                return Err(e);
            },
        }
        let mut moves: usize = 0;
        loop
            invariant
                self.wf(),
                self.hand_number == old(self).hand_number + 1,
                self.table.chips_on_table() == old(self).table.chips_on_table(),
                forall|t: &Table, s: u8| call_requires(on_action, (t, s)),
                forall|k: int| 0 <= k < trace.len() ==> asked_and_applied(on_action, #[trigger] trace[k]),
                forall|k: int| 0 <= k < trace.len() ==> (#[trigger] trace[k]).4 is Ok,
            decreases usize::MAX - moves,
        {
            if moves == usize::MAX {
                proof {
                    assert(played_as_asked(on_action, trace, Err::<Vec<Winnings>, PKError>(PKError::ActionIsntFinished)));
                }
                return Err(PKError::ActionIsntFinished);
            }
            moves = moves + 1;
            match self.next_actor() {
                Err(e) => {
                    proof {
                        assert(played_as_asked(on_action, trace, Err::<Vec<Winnings>, PKError>(e)));
                    }
                    return Err(e);
                },
                Ok(None) => {
                    break;
                },
                Ok(Some(seat)) => {
                    let ghost asked = self.table;
                    let action = on_action(&self.table, seat);
                    let applied = self.apply_action(seat, action);
                    proof {
                        let inner = choose|inner: Result<usize, PKError>|
                            #[trigger] Table::action_outcome(asked, seat, action, self.table, inner)
                                && applied == crate::casino::table::transition::unit_of(inner);
                        let step: MoveStep = (asked, seat, action, self.table, inner);
                        assert(asked_and_applied(on_action, step));
                        let t0 = trace;
                        trace = trace.push(step);
                        assert forall|k: int| 0 <= k < trace.len() implies asked_and_applied(on_action, #[trigger] trace[k]) by {
                            if k < t0.len() {
                                assert(trace[k] == t0[k]);
                            }
                        }
                        if applied is Ok {
                            assert forall|k: int| 0 <= k < trace.len() implies (#[trigger] trace[k]).4 is Ok by {
                                if k < t0.len() {
                                    assert(trace[k] == t0[k]);
                                }
                            }
                        } else {
                            assert forall|k: int| 0 <= k < trace.len() - 1 implies (#[trigger] trace[k]).4 is Ok by {
                                assert(trace[k] == t0[k]);
                            }
                        }
                    }
                    match applied {
                        Ok(_) => {},
                        Err(e) => {
                            proof {
                                assert(trace.last().4 is Err);
                                assert(played_as_asked(on_action, trace, Err::<Vec<Winnings>, PKError>(e)));
                            }
                            return Err(e);
                        },
                    }
                },
            }
        }
        let ranks = rank(&self.table);
        if !crate::casino::manager::settlement_fits(&self.table) {
            proof {
                assert(played_as_asked(on_action, trace, Err::<Vec<Winnings>, PKError>(PKError::ChipAuditFailed)));
            }
            return Err(PKError::ChipAuditFailed);
        }
        let ghost settled_from = self.table;
        let r = self.end_hand(&ranks);
        proof {
            assert(played_as_asked(on_action, trace, r));
            assert(showdown_result(settled_from, ranks@, r, self.table.chips_on_table()));
            assert(crate::casino::table::showdown::showdown_paid(settled_from, ranks@, r, self.table.seats@));
        }
        r
    }

    /// Ends the hand, settling it with the hands ranked by `ranks`.
    pub fn end_hand(&mut self, ranks: &Vec<HandRank>) -> (r: Result<Vec<Winnings>, PKError>)
        requires
            old(self).wf(),
            ranks@.len() >= old(self).table.seats@.len(),
            holdings(old(self).table.seats@) + old(self).table.pot + committed(old(self).table.seats@) <= usize::MAX,
        ensures
            final(self).wf(),
            final(self).hand_number == old(self).hand_number,
            showdown_result(old(self).table, ranks@, r, final(self).table.chips_on_table()),
            crate::casino::table::showdown::showdown_paid(old(self).table, ranks@, r, final(self).table.seats@),
            r is Ok ==> !final(self).in_progress(),
            final(self).pending_forced == old(self).pending_forced,
            final(self).forced_at_hand_start == old(self).forced_at_hand_start,
            final(self).shuffled_deck_str == old(self).shuffled_deck_str,
            final(self).table.forced == old(self).table.forced,
    {
        self.table.end_hand(ranks)
    }

    /// Unwinds a hand that cannot go on: every committed chip goes back
    /// to its stack and the table is reset; answers the chips handed back.
    pub fn abort_hand(&mut self) -> (r: Result<usize, PKError>)
        requires
            old(self).wf(),
            holdings(old(self).table.seats@) + refund_total(old(self).table.seats@) <= usize::MAX,
        ensures
            final(self).wf(),
            final(self).hand_number == old(self).hand_number,
            final(self).table.pot == 0 && final(self).table.bet == 0,
            final(self).table.seats@.len() == old(self).table.seats@.len(),
            final(self).table.forced == old(self).table.forced,
            final(self).pending_forced == old(self).pending_forced,
            forall|j: int|
                0 <= j < final(self).table.seats@.len() ==> (#[trigger] final(self).table.seats@[j]).player.chips
                    == old(self).table.seats@[j].player.chips + old(self).table.seats@[j].player.chips_in_play
                    && final(self).table.seats@[j].player.bet == 0 && final(self).table.seats@[j].player.chips_in_play
                    == 0 && final(self).table.seats@[j].cards.dealt@.len() == 0,
            final(self).table.deck@.to_multiset() == old(self).table.cards_at_table(),
            final(self).table.board@.len() == 0 && final(self).table.muck@.len() == 0,
            r is Ok <==> crate::casino::table::seats::occupied_holdings(final(self).table.seats@)
                == old(self).table.hand_chip_total,
            r matches Ok(n) ==> n == refund_total(old(self).table.seats@),
            r is Err ==> r == Err::<usize, PKError>(PKError::ChipAuditFailed),
    {
        self.table.abort_hand()
    }

    /// The table as `viewer` sees it: every seat's stack and standing, the
    /// hole cards of the viewer's own seat only, the board, the pot and the
    /// seat to act while a hand is played.
    pub fn view(&self, viewer: Option<Principal>) -> (v: SessionView)
        requires
            self.wf(),
        ensures
            v.seats@.len() == self.table.seats@.len(),
            forall|k: int|
                0 <= k < v.seats@.len() ==> (#[trigger] v.seats@[k]).seat == k && v.seats@[k].player_id
                    == self.table.seats@[k].player.id && v.seats@[k].chips == self.table.seats@[k].player.chips
                    && v.seats@[k].to_call == self.table.to_call_spec(k as u8)
                    && v.seats@[k].min_raise_to == self.table.min_raise_to_view()
                    && v.seats@[k].folded == (self.table.seats@[k].player.state is Fold)
                    && v.seats@[k].all_in == self.table.seats@[k].player.all_in()
                    && (v.seats@[k].hole_cards is Some <==> owned_by(viewer, self.table.seats@[k].player.id)) && (v.seats@[k].hole_cards matches Some(t) ==> t@
                    == cards_text(self.table.seats@[k].cards.dealt@)),
            v.game_type == GameType::NoLimitHoldem,
            v.phase == self.table.phase,
            v.board@ == cards_text(self.table.board@),
            v.pot == self.table.pot + crate::casino::table::seats::bets(self.table.seats@),
            v.bet == self.table.bet,
            v.next_to_act == (if self.in_progress() && !self.table.game_over() {
                Some(self.table.next_to_act_spec())
            } else {
                None
            }),
    {
        let mut seats: Vec<SeatView> = Vec::new();
        let n = self.table.seats.0.len();
        let mut i: usize = 0;
        while i < n
            invariant
                i <= n == self.table.seats@.len() <= 256,
                self.wf(),
                seats@.len() == i,
                forall|k: int|
                    0 <= k < i ==> (#[trigger] seats@[k]).seat == k && seats@[k].player_id
                        == self.table.seats@[k].player.id && seats@[k].chips == self.table.seats@[k].player.chips
                        && seats@[k].to_call == self.table.to_call_spec(k as u8)
                        && seats@[k].min_raise_to == self.table.min_raise_to_view()
                        && seats@[k].folded == (self.table.seats@[k].player.state is Fold)
                        && seats@[k].all_in == self.table.seats@[k].player.all_in()
                        && (seats@[k].hole_cards is Some <==> owned_by(viewer, self.table.seats@[k].player.id)) && (seats@[k].hole_cards matches Some(t) ==> t@
                        == cards_text(self.table.seats@[k].cards.dealt@)),
            decreases n - i,
        {
            let seat = &self.table.seats.0[i];
            let owns = match viewer {
                Some(p) => p.0 == seat.player.id,
                None => false,
            };
            let hole_cards = if owns {
                let mut t = String::new();
                push_cards_text(&mut t, &seat.cards.dealt);
                Some(t)
            } else {
                None
            };
            seats.push(
                SeatView {
                    seat: i as u8,
                    player_id: seat.player.id,
                    chips: seat.player.chips,
                    to_call: self.table.to_call(i as u8),
                    min_raise_to: self.table.min_raise_to(),
                    folded: seat.player.state.is_fold(),
                    all_in: seat.player.is_all_in(),
                    hole_cards,
                },
            );
            i = i + 1;
        }
        let next_to_act = if self.is_hand_in_progress() && !self.is_hand_complete() {
            Some(self.table.next_to_act())
        } else {
            None
        };
        let mut board = String::new();
        push_cards_text(&mut board, &self.table.board);
        SessionView {
            game_type: GameType::NoLimitHoldem,
            phase: self.table.phase,
            board,
            pot: self.table.effective_pot(),
            bet: self.table.bet,
            next_to_act,
            seats,
        }
    }
}

} // verus!
