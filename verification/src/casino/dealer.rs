//! The dealer: runs one table, seating players, taking each hand from the
//! shuffle to the showdown, and routing every player action through the
//! table's checks so that an illegal move is answered, never panicked on.
use vstd::prelude::*;

use crate::card::BoxedCards;
use crate::casino::action::TableAction;
use crate::casino::game::ForcedBets;
use crate::casino::state::PlayerState;
use crate::casino::table::player::Player;
use crate::casino::table::seat::Seat;
use crate::casino::table::seats::{holdings, made_eligible, players_wf, Seats};
use crate::casino::table::showdown::{committed, showdown_result};
use crate::casino::table::winnings::{HandRank, Winnings};
use crate::casino::table::{GamePhase, Table};
use crate::error::{pk_error_text, PKError};
use crate::text::{decimal, push_decimal};

verus! {

/// What a player can ask of the dealer, and the events the dealer runs.
#[derive(Clone, Copy, Debug, PartialEq, Eq, Structural)]
pub enum DealerAction {
    /// Bet `amount` chips.
    Bet { seat: u8, amount: usize },
    /// Call the table bet.
    Call { seat: u8 },
    /// Check.
    Check { seat: u8 },
    /// Raise to `amount` chips in all.
    Raise { seat: u8, amount: usize },
    /// Go all in.
    AllIn { seat: u8 },
    /// Fold.
    Fold { seat: u8 },
    /// Deal the hole cards and post the blinds.
    DealHand,
    /// Deal the flop.
    DealFlop,
    /// Deal the turn.
    DealTurn,
    /// Deal the river.
    DealRiver,
    /// Gather the bets into the pot.
    BringItIn,
    /// Settle the hand.
    EndHand,
    /// A player is ready to play the next hand.
    Ready { seat: u8 },
}

impl DealerAction {
    #[verifier::allow_in_spec]
    pub fn is_ready(&self) -> bool
        returns
            *self is Ready,
    {
        match self {
            DealerAction::Ready { .. } => true,
            _ => false,
        }
    }
}

/// Every way the dealer refuses.
#[derive(Clone, Debug, PartialEq, Eq)]
pub enum DealerError {
    /// The table refused.
    TableError(PKError),
    /// The action is not legal now, for the reason given.
    IllegalAction { action: DealerAction, reason: String },
    /// Every seat is taken.
    TableFull,
    /// Fewer than two players can be dealt in.
    NotEnoughPlayers,
    /// No hand has been started.
    HandNotStarted,
    /// The hand is already over.
    HandAlreadyOver,
    NoSuchSeat,
    EmptySeat,
    HandInProgress,
    PlayerIsTappedOut,
}

/// The text of a dealer error.
pub open spec fn dealer_error_text(e: DealerError) -> Seq<char> {
    match e {
        DealerError::TableError(t) => "Table error: "@ + pk_error_text(t),
        DealerError::IllegalAction { action, reason } => "Illegal action: "@ + reason@,
        DealerError::TableFull => "Table is full"@,
        DealerError::NotEnoughPlayers => "Not enough players to start a hand (need at least 2)"@,
        DealerError::HandNotStarted => "Hand has not been started"@,
        DealerError::HandAlreadyOver => "Hand is already over"@,
        DealerError::NoSuchSeat => "Seat does not exist"@,
        DealerError::EmptySeat => "Seat is empty"@,
        DealerError::HandInProgress => "A Hand is in progress"@,
        DealerError::PlayerIsTappedOut => "Player is tapped out"@,
    }
}

impl DealerError {
    /// The text of the error.
    pub fn to_string(&self) -> (s: String)
        ensures
            s@ == dealer_error_text(*self),
    {
        let mut s = String::new();
        match self {
            DealerError::TableError(e) => {
                s.append("Table error: ");
                let t = e.to_string();
                s.append(t.as_str());
            },
            DealerError::IllegalAction { action, reason } => {
                s.append("Illegal action: ");
                s.append(reason.as_str());
            },
            DealerError::TableFull => s.append("Table is full"),
            DealerError::NotEnoughPlayers => s.append("Not enough players to start a hand (need at least 2)"),
            DealerError::HandNotStarted => s.append("Hand has not been started"),
            DealerError::HandAlreadyOver => s.append("Hand is already over"),
            DealerError::NoSuchSeat => s.append("Seat does not exist"),
            DealerError::EmptySeat => s.append("Seat is empty"),
            DealerError::HandInProgress => s.append("A Hand is in progress"),
            DealerError::PlayerIsTappedOut => s.append("Player is tapped out"),
        }
        proof {
            assert(s@ =~= dealer_error_text(*self));
        }
        s
    }
}

impl From<PKError> for DealerError {
    fn from(e: PKError) -> (d: DealerError)
        ensures
            d == DealerError::TableError(e),
    {
        DealerError::TableError(e)
    }
}

impl vstd::std_specs::convert::FromSpecImpl<PKError> for DealerError {
    open spec fn obeys_from_spec() -> bool {
        true
    }

    open spec fn from_spec(e: PKError) -> DealerError {
        DealerError::TableError(e)
    }
}

/// The seat a player action names; `None` for the dealer's own events.
pub open spec fn action_seat(a: DealerAction) -> Option<u8> {
    match a {
        DealerAction::Bet { seat, .. } => Some(seat),
        DealerAction::Call { seat } => Some(seat),
        DealerAction::Check { seat } => Some(seat),
        DealerAction::Raise { seat, .. } => Some(seat),
        DealerAction::AllIn { seat } => Some(seat),
        DealerAction::Fold { seat } => Some(seat),
        DealerAction::Ready { seat } => Some(seat),
        _ => None,
    }
}

/// Why a seat cannot act, if it cannot: it does not exist, it is empty, or
/// its player is out of the hand.
pub open spec fn inactive_reason(t: Table, seat: u8) -> Option<Seq<char>> {
    if seat >= t.seats@.len() {
        Some("Seat "@ + decimal(seat as nat) + " does not exist"@)
    } else if t.seats@[seat as int].vacant() {
        Some("Seat "@ + decimal(seat as nat) + " is empty"@)
    } else if !t.seats@[seat as int].in_hand() {
        Some("Seat "@ + decimal(seat as nat) + " ("@ + t.seats@[seat as int].player.handle@
            + ") is not in the hand"@)
    } else {
        None
    }
}

/// Why the dealer itself turns a player action away before the table sees
/// it: the seat cannot act, a bet of nothing or below the big blind, a
/// check facing a bet, a raise not above the table bet.
pub open spec fn dealer_refusal(t: Table, a: DealerAction) -> Option<Seq<char>> {
    match action_seat(a) {
        None => None,
        Some(seat) => match inactive_reason(t, seat) {
            Some(why) => Some(why),
            None => match a {
                DealerAction::Bet { amount, .. } => if amount == 0 {
                    Some("Bet amount must be greater than zero"@)
                } else if amount < t.forced.big_blind {
                    Some("Bet of "@ + decimal(amount as nat) + " is less than the minimum bet (big blind "@
                        + decimal(t.forced.big_blind as nat) + ")"@)
                } else {
                    None
                },
                DealerAction::Check { .. } => if t.seats@[seat as int].player.bet < t.bet {
                    Some("Cannot check: there is an outstanding bet of "@ + decimal(t.bet as nat))
                } else {
                    None
                },
                DealerAction::Raise { amount, .. } => if amount <= t.bet {
                    Some("Raise amount "@ + decimal(amount as nat) + " must be greater than the current bet "@
                        + decimal(t.bet as nat))
                } else {
                    None
                },
                _ => None,
            },
        },
    }
}

/// What the table answers a player action the dealer passes on: out of
/// turn, the refusal naming the attempt; otherwise the answer of the
/// table's handler.
pub open spec fn table_answer(t: Table, a: DealerAction) -> Result<usize, PKError> {
    let seat = match action_seat(a) {
        Some(s) => s,
        None => 0,
    };
    let attempt = match a {
        DealerAction::Bet { amount, .. } => PlayerState::Bet(amount),
        DealerAction::Call { .. } => PlayerState::Call(0),
        DealerAction::Check { .. } => PlayerState::Check,
        DealerAction::Raise { amount, .. } => PlayerState::Raise(amount),
        DealerAction::AllIn { .. } => PlayerState::AllIn(t.max_raise_spec(seat) as usize),
        _ => PlayerState::Fold,
    };
    if seat != t.next_to_act_spec() {
        Err(PKError::TableActionOutOfOrder(TableAction::InvalidPlayerAction(seat, attempt)))
    } else {
        match a {
            DealerAction::Bet { amount, .. } => Table::wager_result(t, seat, PlayerState::Bet(amount)),
            DealerAction::Call { .. } => Table::call_result(t, seat),
            DealerAction::Check { .. } => Table::check_result(t, seat),
            DealerAction::Raise { amount, .. } => Table::wager_result(t, seat, PlayerState::Raise(amount)),
            DealerAction::AllIn { .. } => Table::all_in_result(t, seat),
            _ => Table::fold_result(t, seat),
        }
    }
}

/// Whether `a` is a player's action in a hand (not the dealer's own event
/// and not a readiness call).
pub open spec fn is_player_move(a: DealerAction) -> bool {
    a is Bet || a is Call || a is Check || a is Raise || a is AllIn || a is Fold
}

/// Runs one table.
pub struct Dealer {
    /// The table being run.
    pub table: Table,
    /// Whether a hand is being played: set once a hand starts, cleared when
    /// it ends.
    pub hand_in_progress: bool,
}

/// The most seats a dealer's table has.
pub const MAX_NUMBER_SEATS: u8 = 10;

/// Whether `after` is `before` with its street ended: the bets collected
/// and the next street dealt (the flop onto an empty board, the turn onto
/// the flop, the river onto the turn), or, where collecting the bets ended
/// the hand or the board is past the river, the board as it was.
pub open spec fn street_dealt(before: Table, after: Table) -> bool {
    let n = before.board@.len();
    ||| n == 0 && after.board@.len() == 3
    ||| n == 3 && after.board@.len() == 4 && after.board@.subrange(0, 3) == before.board@
    ||| n == 4 && after.board@.len() == 5 && after.board@.subrange(0, 4) == before.board@
    ||| after.board == before.board && (exists|mid: Table|
        Table::bring_in_outcome(before, mid, Ok::<usize, PKError>(mid.pot)) && #[trigger] mid.game_over())
    ||| after.board == before.board && !(n == 0 || n == 3 || n == 4)
}

impl Dealer {
    /// Whether a hand is being played.
    pub open spec fn in_hand(&self) -> bool {
        self.hand_in_progress
    }

    /// The dealer's bookkeeping: a table in order, with one to ten seats.
    pub open spec fn wf(&self) -> bool {
        &&& self.table.wf()
        &&& 0 < self.table.seats@.len() <= MAX_NUMBER_SEATS
    }

    /// A dealer with a no-limit table of `seat_count` empty seats, no hand
    /// being played.
    pub fn new(forced: ForcedBets, seat_count: u8) -> (d: Dealer)
        requires
            0 < seat_count <= MAX_NUMBER_SEATS,
        ensures
            d.wf(),
            !d.in_hand(),
            d.table.forced == forced,
            d.table.seats@.len() == seat_count,
            forall|i: int| 0 <= i < seat_count ==> (#[trigger] d.table.seats@[i]).vacant()
                && d.table.seats@[i].player.chips == 0 && d.table.seats@[i].player.bet == 0
                && d.table.seats@[i].player.chips_in_play == 0,
            d.table.pot == 0,
    {
        let mut v: Vec<Seat> = Vec::new();
        let mut i: u8 = 0;
        while i < seat_count
            invariant
                i <= seat_count <= MAX_NUMBER_SEATS,
                v@.len() == i,
                forall|j: int| 0 <= j < i ==> (#[trigger] v@[j]).vacant() && v@[j].player.chips == 0
                    && v@[j].player.bet == 0 && v@[j].player.chips_in_play == 0,
            decreases seat_count - i,
        {
            v.push(Seat::new_with_cards(Player::default(), BoxedCards::blanks(2)));
            i = i + 1;
        }
        let seats = Seats::new(v);
        proof {
            crate::casino::table::lemma_holdings_zero(seats@);
        }
        let table = Table::nlh_from_seats(seats, forced);
        Dealer { table, hand_in_progress: false }
    }

    /// A dealer for a table set up already, no hand being played.
    pub fn from_table(table: Table) -> (d: Dealer)
        ensures
            d.table == table,
            !d.in_hand(),
    {
        Dealer { table, hand_in_progress: false }
    }

    /// Seats `player` in the first empty seat, out of the hand until it is
    /// ready, and answers the seat; refused with `TableFull` when no seat
    /// is empty.
    pub fn seat_player(&mut self, player: Player) -> (r: Result<u8, DealerError>)
        requires
            old(self).wf(),
            player.wf(),
            old(self).table.chips_on_table() + player.chips + player.bet <= usize::MAX,
        ensures
            final(self).wf(),
            final(self).in_hand() == old(self).in_hand(),
            (forall|i: int| 0 <= i < old(self).table.seats@.len() ==> !(#[trigger] old(self).table.seats@[i]).vacant())
                <==> r == Err::<u8, DealerError>(DealerError::TableFull),
            r is Err ==> r == Err::<u8, DealerError>(DealerError::TableFull),
            (exists|i: int| 0 <= i < old(self).table.seats@.len() && (#[trigger] old(self).table.seats@[i]).vacant())
                ==> r is Ok,
            r is Err ==> final(self).table.seats@ == old(self).table.seats@ && final(self).table == (Table {
                seats: final(self).table.seats,
                ..old(self).table
            }),
            r matches Ok(n) ==> n < old(self).table.seats@.len() && old(self).table.seats@[n as int].vacant()
                && (forall|i: int| 0 <= i < n ==> !(#[trigger] old(self).table.seats@[i]).vacant())
                && final(self).table.seats@[n as int].player == (Player { state: PlayerState::Out, ..player })
                && final(self).table.seats@[n as int].cards.dealt@.len() == 0
                && final(self).table.seats@ == old(self).table.seats@.update(n as int, final(self).table.seats@[n as int])
                && final(self).table == (Table { seats: final(self).table.seats, ..old(self).table }),
    {
        let mut seated = player;
        seated.state = PlayerState::Out;
        let seat = Seat::new_with_cards(seated, BoxedCards::blanks(2));
        let n = self.table.seats.0.len();
        let mut i: usize = 0;
        while i < n
            invariant
                i <= n == self.table.seats@.len() <= 10,
                *self == *old(self),
                old(self).wf(),
                seat.player.wf(),
                seat.player.chips == player.chips && seat.player.bet == player.bet,
                seat.player == (Player { state: PlayerState::Out, ..player }),
                seat.cards.dealt@.len() == 0,
                old(self).table.chips_on_table() + player.chips + player.bet <= usize::MAX,
                forall|j: int| 0 <= j < i ==> !(#[trigger] self.table.seats@[j]).vacant(),
            decreases n - i,
        {
            if self.table.seats.0[i].is_empty() {
                let ghost before = self.table.seats@;
                proof {
                    crate::casino::table::seats::lemma_seat_holdings_le(before, i as int);
                    crate::casino::table::seats::lemma_holdings_update(before, i as int, seat);
                }
                let _ = self.table.seats.assign(i, seat);
                proof {
                    assert(self.table.seats@[i as int] == seat);
                    assert forall|j: int| 0 <= j < self.table.seats@.len() implies (#[trigger] self.table.seats@[j]).player.wf() by {
                        if j != i {
                            assert(self.table.seats@[j] == before[j]);
                        }
                    }
                }
                return Ok(i as u8);
            }
            i = i + 1;
        }
        Err(DealerError::TableFull)
    }

    /// Seats `player` at `seat_number`, out of the hand until it is ready;
    /// refused with `InvalidSeatNumber` past the end of the ring and with
    /// `TableFull` when the seat is taken.
    pub fn seat_player_at(&mut self, player: Player, seat_number: u8) -> (r: Result<(), DealerError>)
        requires
            old(self).wf(),
            player.wf(),
            old(self).table.chips_on_table() + player.chips + player.bet <= usize::MAX,
        ensures
            final(self).wf(),
            final(self).in_hand() == old(self).in_hand(),
            seat_number >= old(self).table.seats@.len() ==> r == Err::<(), DealerError>(
                DealerError::TableError(PKError::InvalidSeatNumber),
            ),
            seat_number < old(self).table.seats@.len() && !old(self).table.seats@[seat_number as int].vacant()
                ==> r == Err::<(), DealerError>(DealerError::TableError(PKError::TableFull)),
            r is Err ==> final(self).table.seats@ == old(self).table.seats@ && final(self).table == (Table {
                seats: final(self).table.seats,
                ..old(self).table
            }),
            seat_number < old(self).table.seats@.len() && old(self).table.seats@[seat_number as int].vacant()
                ==> r is Ok && final(self).table.seats@[seat_number as int].player == (Player {
                state: PlayerState::Out,
                ..player
            }) && final(self).table.seats@[seat_number as int].cards.dealt@.len() == 0
                && final(self).table.seats@ == old(self).table.seats@.update(
                seat_number as int,
                final(self).table.seats@[seat_number as int],
            ) && final(self).table == (Table { seats: final(self).table.seats, ..old(self).table }),
    {
        match self.table.get_seat(seat_number) {
            Some(existing) => {
                if !existing.is_empty() {
                    return Err(DealerError::TableError(PKError::TableFull));
                }
            },
            None => {
                return Err(DealerError::TableError(PKError::InvalidSeatNumber));
            },
        }
        let mut seated = player;
        seated.state = PlayerState::Out;
        let seat = Seat::new_with_cards(seated, BoxedCards::blanks(2));
        let ghost before = self.table.seats@;
        let i = seat_number as usize;
        proof {
            crate::casino::table::seats::lemma_seat_holdings_le(before, i as int);
            crate::casino::table::seats::lemma_holdings_update(before, i as int, seat);
        }
        let _ = self.table.seats.assign(i, seat);
        proof {
            assert forall|j: int| 0 <= j < self.table.seats@.len() implies (#[trigger] self.table.seats@[j]).player.wf() by {
                if j != i {
                    assert(self.table.seats@[j] == before[j]);
                }
            }
        }
        Ok(())
    }

    /// Empties `seat_number` and answers who sat there; refused while a
    /// hand is played, and with `TableFull` past the end of the ring.
    pub fn remove_player(&mut self, seat_number: u8) -> (r: Result<Player, DealerError>)
        requires
            old(self).wf(),
        ensures
            final(self).wf(),
            final(self).in_hand() == old(self).in_hand(),
            old(self).in_hand() ==> (r matches Err(DealerError::IllegalAction { action, reason }) && action
                == (DealerAction::Fold { seat: seat_number }) && reason@
                == "Cannot remove a player while a hand is in progress"@),
            !old(self).in_hand() && seat_number >= old(self).table.seats@.len() ==> r == Err::<
                Player,
                DealerError,
            >(DealerError::TableError(PKError::TableFull)),
            r is Err ==> final(self).table.seats@ == old(self).table.seats@ && final(self).table == (Table {
                seats: final(self).table.seats,
                ..old(self).table
            }),
            !old(self).in_hand() && seat_number < old(self).table.seats@.len() ==> r == Ok::<
                Player,
                DealerError,
            >(old(self).table.seats@[seat_number as int].player) && final(self).table.seats@[seat_number as int].vacant()
                && final(self).table.seats@[seat_number as int].player.chips == 0
                && final(self).table.seats@ == old(self).table.seats@.update(
                seat_number as int,
                final(self).table.seats@[seat_number as int],
            ) && final(self).table == (Table { seats: final(self).table.seats, ..old(self).table }),
    {
        if self.hand_in_progress {
            return Err(
                DealerError::IllegalAction {
                    action: DealerAction::Fold { seat: seat_number },
                    reason: String::from_str("Cannot remove a player while a hand is in progress"),
                },
            );
        }
        let empty = Seat::default();
        let ghost before = self.table.seats@;
        let i = seat_number as usize;
        if i < self.table.seats.0.len() {
            proof {
                crate::casino::table::seats::lemma_seat_holdings_le(before, i as int);
                crate::casino::table::seats::lemma_holdings_update(before, i as int, empty);
            }
        }
        match self.table.seats.assign(i, empty) {
            Ok(old_seat) => {
                proof {
                    assert forall|j: int| 0 <= j < self.table.seats@.len() implies (#[trigger] self.table.seats@[j]).player.wf() by {
                        if j != i {
                            assert(self.table.seats@[j] == before[j]);
                        }
                    }
                }
                Ok(old_seat.player)
            },
            Err(e) => Err(DealerError::TableError(e)),
        }
    }
}

/// How the table moves on a player action the dealer passes on, the
/// table's own answer being `inner`: out of turn, refused and logged;
/// otherwise as the table's handler for that action moves it.
pub open spec fn table_moved(t: Table, a: DealerAction, after: Table, inner: Result<usize, PKError>) -> bool {
    let seat = match action_seat(a) {
        Some(s) => s,
        None => 0,
    };
    let attempt = match a {
        DealerAction::Bet { amount, .. } => PlayerState::Bet(amount),
        DealerAction::Call { .. } => PlayerState::Call(0),
        DealerAction::Check { .. } => PlayerState::Check,
        DealerAction::Raise { amount, .. } => PlayerState::Raise(amount),
        DealerAction::AllIn { .. } => PlayerState::AllIn(t.max_raise_spec(seat) as usize),
        _ => PlayerState::Fold,
    };
    if seat != t.next_to_act_spec() {
        Table::refused_out_of_turn(t, after, inner, TableAction::InvalidPlayerAction(seat, attempt))
    } else {
        match a {
            DealerAction::Bet { amount, .. } => Table::wager_outcome(t, seat, PlayerState::Bet(amount), after, inner),
            DealerAction::Call { .. } => Table::call_outcome(t, seat, after, inner),
            DealerAction::Check { .. } => Table::check_outcome(t, seat, after, inner),
            DealerAction::Raise { amount, .. } => Table::wager_outcome(
                t,
                seat,
                PlayerState::Raise(amount),
                after,
                inner,
            ),
            DealerAction::AllIn { .. } => Table::all_in_outcome(t, seat, after, inner),
            _ => Table::fold_outcome(t, seat, after, inner),
        }
    }
}

/// What readying `seat` answers: `NoSuchSeat` past the end of the ring,
/// `EmptySeat` for an empty seat, `PlayerIsTappedOut` for a player with
/// nothing, `HandInProgress` for a player still active; otherwise the
/// player is marked ready.
pub open spec fn ready_refusal(t: Table, seat: u8) -> Option<DealerError> {
    if seat >= t.seats@.len() {
        Some(DealerError::NoSuchSeat)
    } else if t.seats@[seat as int].vacant() {
        Some(DealerError::EmptySeat)
    } else if t.seats@[seat as int].player.chips == 0 && t.seats@[seat as int].player.bet == 0 {
        Some(DealerError::PlayerIsTappedOut)
    } else if t.seats@[seat as int].player.state.is_active() {
        Some(DealerError::HandInProgress)
    } else {
        None
    }
}

/// A seat that can be dealt into a hand: occupied, in the hand and with
/// chips in front of it or in its stack.
pub open spec fn can_be_dealt_in(x: Seat) -> bool {
    !x.vacant() && x.in_hand() && !(x.player.chips == 0 && x.player.bet == 0)
}

/// Builds the text "Seat {seat}" followed by `rest`.
fn seat_reason(seat: u8, rest: &str) -> (s: String)
    ensures
        s@ == "Seat "@ + decimal(seat as nat) + rest@,
{
    let mut s = String::new();
    s.append("Seat ");
    push_decimal(&mut s, seat as usize);
    s.append(rest);
    s
}

impl Dealer {
    /// Readies the player at `seat` for the next hand and answers it, as
    /// `ready_refusal` says.
    pub fn do_ready(&mut self, seat: u8) -> (r: Result<Player, DealerError>)
        requires
            old(self).wf(),
        ensures
            final(self).wf(),
            final(self).in_hand() == old(self).in_hand(),
            final(self).table.chips_on_table() == old(self).table.chips_on_table(),
            ready_refusal(old(self).table, seat) matches Some(e) ==> r == Err::<Player, DealerError>(e)
                && final(self).table == old(self).table,
            ready_refusal(old(self).table, seat) is None ==> (r matches Ok(p) && p.state == PlayerState::Ready
                && p.id == old(self).table.seats@[seat as int].player.id && p.chips == old(
                self,
            ).table.seats@[seat as int].player.chips && final(self).table.seats@ == old(self).table.seats@.update(
                seat as int,
                Seat {
                    player: Player { state: PlayerState::Ready, ..old(self).table.seats@[seat as int].player },
                    ..old(self).table.seats@[seat as int]
                },
            ) && final(self).table == (Table { seats: final(self).table.seats, ..old(self).table })),
    {
        let i = seat as usize;
        if i >= self.table.seats.0.len() {
            return Err(DealerError::NoSuchSeat);
        }
        if self.table.seats.0[i].is_empty() {
            return Err(DealerError::EmptySeat);
        }
        if self.table.seats.0[i].player.is_tapped_out() {
            return Err(DealerError::PlayerIsTappedOut);
        }
        if self.table.seats.0[i].player.is_active() {
            return Err(DealerError::HandInProgress);
        }
        let ghost before = self.table.seats@;
        self.table.seats.0[i].player.state = PlayerState::Ready;
        proof {
            assert(self.table.seats@ =~= before.update(i as int, self.table.seats@[i as int]));
            crate::casino::table::dealing::lemma_holdings_same_stacks(before, self.table.seats@);
            assert forall|j: int| 0 <= j < self.table.seats@.len() implies (#[trigger] self.table.seats@[j]).player.wf() by {
                assert(before[j].player.wf());
            }
        }
        let p = &self.table.seats.0[i].player;
        Ok(Player {
            id: p.id,
            handle: p.handle.clone(),
            chips: p.chips,
            bet: p.bet,
            chips_in_play: p.chips_in_play,
            withdrawn: p.withdrawn,
            state: p.state,
        })
    }

    /// Turns away a seat that cannot act, with the reason.
    fn validate_is_active(&self, seat: u8, action: DealerAction) -> (r: Result<(), DealerError>)
        ensures
            inactive_reason(self.table, seat) is None <==> r is Ok,
            inactive_reason(self.table, seat) matches Some(why) ==> (r matches Err(
                DealerError::IllegalAction { action: a, reason },
            ) && a == action && reason@ == why),
    {
        match self.table.get_seat(seat) {
            None => Err(DealerError::IllegalAction { action, reason: seat_reason(seat, " does not exist") }),
            Some(s) => {
                if s.is_empty() {
                    Err(DealerError::IllegalAction { action, reason: seat_reason(seat, " is empty") })
                } else if !s.is_in_hand() {
                    let mut reason = seat_reason(seat, " (");
                    reason.append(s.player.handle.as_str());
                    reason.append(") is not in the hand");
                    Err(DealerError::IllegalAction { action, reason })
                } else {
                    Ok(())
                }
            },
        }
    }

    /// Turns away a player action the dealer itself refuses, with the
    /// reason, as `dealer_refusal` says.
    fn prevalidate(&self, action: DealerAction) -> (r: Result<(), DealerError>)
        requires
            is_player_move(action),
        ensures
            dealer_refusal(self.table, action) is None <==> r is Ok,
            dealer_refusal(self.table, action) matches Some(why) ==> (r matches Err(
                DealerError::IllegalAction { action: a, reason },
            ) && a == action && reason@ == why),
    {
        let seat = match action {
            DealerAction::Bet { seat, .. } => seat,
            DealerAction::Call { seat } => seat,
            DealerAction::Check { seat } => seat,
            DealerAction::Raise { seat, .. } => seat,
            DealerAction::AllIn { seat } => seat,
            DealerAction::Fold { seat } => seat,
            _ => 0,
        };
        match self.validate_is_active(seat, action) {
            Ok(_) => {},
            Err(e) => {
                return Err(e);
            },
        }
        match action {
            DealerAction::Bet { amount, .. } => {
                if amount == 0 {
                    return Err(
                        DealerError::IllegalAction {
                            action,
                            reason: String::from_str("Bet amount must be greater than zero"),
                        },
                    );
                }
                let bb = self.table.forced.big_blind;
                if amount < bb {
                    let mut reason = String::new();
                    reason.append("Bet of ");
                    push_decimal(&mut reason, amount);
                    reason.append(" is less than the minimum bet (big blind ");
                    push_decimal(&mut reason, bb);
                    reason.append(")");
                    return Err(DealerError::IllegalAction { action, reason });
                }
                Ok(())
            },
            DealerAction::Check { .. } => {
                let current_bet = self.table.bet;
                if self.table.seats.0[seat as usize].player.bet < current_bet {
                    let mut reason = String::new();
                    reason.append("Cannot check: there is an outstanding bet of ");
                    push_decimal(&mut reason, current_bet);
                    return Err(DealerError::IllegalAction { action, reason });
                }
                Ok(())
            },
            DealerAction::Raise { amount, .. } => {
                let current_bet = self.table.bet;
                if amount <= current_bet {
                    let mut reason = String::new();
                    reason.append("Raise amount ");
                    push_decimal(&mut reason, amount);
                    reason.append(" must be greater than the current bet ");
                    push_decimal(&mut reason, current_bet);
                    return Err(DealerError::IllegalAction { action, reason });
                }
                Ok(())
            },
            _ => Ok(()),
        }
    }

    /// Routes a player action to the table, once the dealer lets it
    /// through, and answers it; the table's refusal comes back as an
    /// illegal action with the table's reason.
    fn route(&mut self, action: DealerAction) -> (r: Result<(), DealerError>)
        requires
            old(self).wf(),
            is_player_move(action),
            dealer_refusal(old(self).table, action) is None,
        ensures
            final(self).wf(),
            final(self).hand_in_progress == old(self).hand_in_progress,
            final(self).table.chips_on_table() == old(self).table.chips_on_table(),
            table_answer(old(self).table, action) is Ok <==> r is Ok,
            table_answer(old(self).table, action) matches Err(e) ==> (r matches Err(
                DealerError::IllegalAction { action: a, reason },
            ) && a == action && reason@ == pk_error_text(e)),
            exists|inner: Result<usize, PKError>| #[trigger] table_moved(old(self).table, action, final(self).table, inner),
    {
        let ghost before = self.table;
        let inner = match action {
            DealerAction::Bet { seat, amount } => self.table.act_bet(seat, amount),
            DealerAction::Call { seat } => self.table.act_call(seat),
            DealerAction::Check { seat } => self.table.act_check(seat),
            DealerAction::Raise { seat, amount } => self.table.act_raise(seat, amount),
            DealerAction::AllIn { seat } => self.table.act_all_in(seat),
            _ => {
                let seat = match action {
                    DealerAction::Fold { seat } => seat,
                    _ => 0,
                };
                self.table.act_fold(seat)
            },
        };
        proof {
            crate::casino::table::actions::lemma_outcomes_answer_results(
                before,
                match action_seat(action) {
                    Some(s) => s,
                    None => 0,
                },
                self.table,
                inner,
            );
            assert(table_moved(before, action, self.table, inner));
        }
        match inner {
            Ok(_) => Ok(()),
            Err(e) => Err(DealerError::IllegalAction { action, reason: e.to_string() }),
        }
    }
}

/// Whether `seat` is among `v`.
fn holds_seat(v: &Vec<u8>, seat: u8) -> (b: bool)
    ensures
        b == v@.contains(seat),
{
    let mut i: usize = 0;
    while i < v.len()
        invariant
            i <= v@.len(),
            forall|k: int| 0 <= k < i ==> v@[k] != seat,
        decreases v@.len() - i,
    {
        if v[i] == seat {
            proof {
                assert(v@[i as int] == seat);
            }
            return true;
        }
        i = i + 1;
    }
    false
}

impl Dealer {
    /// Moves the button round the ring, a seat at a time and at most once
    /// round, until it sits at one of `occupied`.
    fn advance_button_to_occupied(&mut self, occupied: &Vec<u8>)
        requires
            old(self).wf(),
            occupied@.len() > 0,
            forall|k: int| 0 <= k < occupied@.len() ==> (#[trigger] occupied@[k]) < old(self).table.seats@.len(),
        ensures
            final(self).wf(),
            final(self).hand_in_progress == old(self).hand_in_progress,
            occupied@.contains(final(self).table.button),
            final(self).table.seats == old(self).table.seats,
            final(self).table == (Table {
                button: final(self).table.button,
                event_log: final(self).table.event_log,
                ..old(self).table
            }),
    {
        let size = self.table.seats.0.len();
        let ghost b0 = self.table.button as nat;
        let ghost n = size as nat;
        let mut i: usize = 0;
        while i < size
            invariant
                0 < size == n == self.table.seats@.len() <= MAX_NUMBER_SEATS,
                i <= size,
                self.wf(),
                self.hand_in_progress == old(self).hand_in_progress,
                self.table == (Table {
                    button: self.table.button,
                    event_log: self.table.event_log,
                    ..old(self).table
                }),
                b0 == old(self).table.button,
                i > 0 ==> self.table.button == (b0 + i) % (n as int),
                i == 0 ==> self.table.button == b0,
                forall|m: int| 1 <= m <= i ==> !occupied@.contains((#[trigger] ((b0 + m) % (n as int))) as u8),
            decreases size - i,
        {
            self.table.act_button_move();
            let btn = self.table.button;
            proof {
                if i > 0 {
                    assert(((b0 + i) % (n as int) + 1) % (n as int) == (b0 + i + 1) % (n as int)) by {
                        vstd::arithmetic::div_mod::lemma_add_mod_noop_right(1, b0 + i, n as int);
                    }
                }
            }
            proof {
                assert(btn == (b0 + (i + 1)) % (n as int));
            }
            if holds_seat(occupied, btn) {
                return;
            }
            proof {
                assert(!occupied@.contains(((b0 + (i + 1)) % (n as int)) as u8));
            }
            i = i + 1;
        }
        proof {
            let k = occupied@[0];
            crate::casino::table::dealing::lemma_ring_reaches(n, b0 + 1, k as nat);
            let t = (k - (b0 + 1)) % (n as int);
            assert(0 <= t < n);
            assert(((b0 + (t + 1)) % (n as int)) as u8 == k);
            assert(!occupied@.contains(((b0 + (t + 1)) % (n as int)) as u8));
            assert(occupied@.contains(k));
        }
    }
}

/// A seat readied for a new hand by the dealer: an occupied seat whose
/// player has chips is yet to act; any other seat is left as it is.
pub open spec fn funded_reset(x: Seat) -> Seat {
    if x.vacant() || (x.player.chips == 0 && x.player.bet == 0) {
        x
    } else {
        Seat { player: Player { state: PlayerState::YetToAct, ..x.player }, ..x }
    }
}

/// How many seats of `s` can be dealt into a hand.
pub open spec fn dealt_in_count(s: Seq<Seat>) -> nat {
    crate::casino::table::seats::count_where(s, |x: Seat| can_be_dealt_in(x))
}

/// The seats that can be dealt in, in seat order.
fn seats_to_deal_in(s: &Seats) -> (v: Vec<u8>)
    requires
        s@.len() <= MAX_NUMBER_SEATS,
    ensures
        v@.len() == dealt_in_count(s@),
        forall|k: int| 0 <= k < v@.len() ==> (#[trigger] v@[k]) < s@.len() && can_be_dealt_in(s@[v@[k] as int]),
{
    let mut v: Vec<u8> = Vec::new();
    let mut i: usize = 0;
    while i < s.0.len()
        invariant
            i <= s@.len() <= MAX_NUMBER_SEATS,
            v@.len() == crate::casino::table::seats::count_where(s@.subrange(0, i as int), |x: Seat| can_be_dealt_in(x)),
            forall|k: int| 0 <= k < v@.len() ==> (#[trigger] v@[k]) < i && can_be_dealt_in(s@[v@[k] as int]),
        decreases s@.len() - i,
    {
        proof {
            assert(s@.subrange(0, i + 1).drop_last() =~= s@.subrange(0, i as int));
        }
        let seat = &s.0[i];
        if !seat.is_empty() && seat.is_in_hand() && !seat.player.is_tapped_out() {
            v.push(i as u8);
        }
        i = i + 1;
    }
    proof {
        assert(s@.subrange(0, s@.len() as int) =~= s@);
    }
    v
}

impl Dealer {
    /// Readies every occupied seat with chips for the next hand; refused
    /// with `HandInProgress` while a hand is played.
    pub fn set_funded_players_to_yet_to_act(&mut self) -> (r: Result<(), DealerError>)
        requires
            old(self).wf(),
        ensures
            final(self).wf(),
            final(self).hand_in_progress == old(self).hand_in_progress,
            final(self).table.chips_on_table() == old(self).table.chips_on_table(),
            old(self).in_hand() ==> r == Err::<(), DealerError>(DealerError::HandInProgress) && final(self).table
                == old(self).table,
            !old(self).in_hand() ==> r is Ok && final(self).table.seats@ == old(self).table.seats@.map_values(
                |x: Seat| funded_reset(x),
            ) && final(self).table == (Table { seats: final(self).table.seats, ..old(self).table }),
    {
        if self.hand_in_progress {
            return Err(DealerError::HandInProgress);
        }
        let ghost before = self.table.seats@;
        let mut i: usize = 0;
        while i < self.table.seats.0.len()
            invariant
                i <= self.table.seats@.len() == before.len(),
                before == old(self).table.seats@,
                old(self).wf(),
                self.hand_in_progress == old(self).hand_in_progress,
                forall|j: int| 0 <= j < i ==> #[trigger] self.table.seats@[j] == funded_reset(before[j]),
                forall|j: int| i <= j < self.table.seats@.len() ==> #[trigger] self.table.seats@[j] == before[j],
                self.table == (Table { seats: self.table.seats, ..old(self).table }),
            decreases self.table.seats@.len() - i,
        {
            if !self.table.seats.0[i].is_empty() && !self.table.seats.0[i].player.is_tapped_out() {
                self.table.seats.0[i].player.state = PlayerState::YetToAct;
            }
            i = i + 1;
        }
        proof {
            assert(self.table.seats@ =~= before.map_values(|x: Seat| funded_reset(x)));
            crate::casino::table::dealing::lemma_holdings_same_stacks(before, self.table.seats@);
            assert forall|j: int| 0 <= j < self.table.seats@.len() implies (#[trigger] self.table.seats@[j]).player.wf() by {
                assert(before[j].player.wf());
            }
        }
        Ok(())
    }

    /// Starts a hand: readies the players with chips, and, when at least
    /// two can be dealt in, shuffles, starts a new hand, moves the button to
    /// a seat dealt in, posts the blinds and deals the hole cards. Refused
    /// while a hand is played, with `NotEnoughPlayers` when fewer than two
    /// can be dealt in, and with the table's error when a step fails.
    pub fn start_hand(&mut self) -> (r: Result<(), DealerError>)
        requires
            old(self).wf(),
        ensures
            final(self).wf(),
            final(self).table.chips_on_table() == old(self).table.chips_on_table(),
            old(self).in_hand() ==> (r matches Err(DealerError::IllegalAction { action, reason }) && action
                == DealerAction::DealHand && reason@ == "A hand is already in progress"@) && final(self).table
                == old(self).table && final(self).in_hand(),
            !old(self).in_hand() && dealt_in_count(old(self).table.seats@.map_values(|x: Seat| funded_reset(x))) < 2
                ==> r == Err::<(), DealerError>(DealerError::NotEnoughPlayers) && !final(self).in_hand()
                && final(self).table.seats@ == old(self).table.seats@.map_values(|x: Seat| funded_reset(x))
                && final(self).table == (Table { seats: final(self).table.seats, ..old(self).table }),
            !old(self).in_hand() && r is Err ==> !final(self).in_hand(),
            !old(self).in_hand() && r is Err && dealt_in_count(
                old(self).table.seats@.map_values(|x: Seat| funded_reset(x)),
            ) >= 2 ==> r matches Err(DealerError::TableError(_)),
            r is Ok ==> final(self).in_hand() && !old(self).in_hand(),
            !old(self).in_hand() && dealt_in_count(old(self).table.seats@.map_values(|x: Seat| funded_reset(x))) >= 2
                ==> exists|m0: Table, rt: Result<(), PKError>|
                {
                    &&& #[trigger] crate::casino::table::dealing::hand_dealt(m0, final(self).table, rt)
                    &&& (rt is Ok <==> r is Ok)
                    &&& rt matches Err(e) ==> r == Err::<(), DealerError>(DealerError::TableError(e))
                    &&& m0.seats@ == old(self).table.seats@.map_values(|x: Seat| funded_reset(x))
                    &&& m0.deck@.to_multiset() == old(self).table.deck@.to_multiset()
                    &&& m0.button < m0.seats@.len() && can_be_dealt_in(m0.seats@[m0.button as int])
                    &&& m0.deck@.len() >= 2 * m0.seats@.len() && crate::casino::table::dealing::room_for_two(m0.seats@)
                        ==> (rt matches Err(e) ==> crate::casino::table::dealing::blinds_refused(m0, e))
                    &&& m0 == (Table {
                        seats: m0.seats,
                        deck: m0.deck,
                        phase: GamePhase::NewHand,
                        button: m0.button,
                        event_log: m0.event_log,
                        ..old(self).table
                    })
                },
    {
        if self.hand_in_progress {
            return Err(
                DealerError::IllegalAction {
                    action: DealerAction::DealHand,
                    reason: String::from_str("A hand is already in progress"),
                },
            );
        }
        let _ = self.set_funded_players_to_yet_to_act();
        let occupied = seats_to_deal_in(&self.table.seats);
        if occupied.len() < 2 {
            return Err(DealerError::NotEnoughPlayers);
        }
        self.table.act_shuffle_deck();
        self.table.act_new_hand();
        self.advance_button_to_occupied(&occupied);
        let ghost m0 = self.table;
        let rf = self.table.act_forced_bets();
        let ghost mf = self.table;
        proof {
            let (m1, m2, m3, r1, r2) = choose|m1: Table, m2: Table, m3: Table, r1: Result<(), PKError>, r2: Result<(), PKError>|
                Table::forced_bets_steps(m0, m1, m2, m3, r1, r2, mf, rf);
            assert(Table::forced_bets_steps(m0, m1, m2, m3, r1, r2, mf, rf));
            if rf is Err {
                assert(crate::casino::table::dealing::hand_dealt(m0, mf, rf));
            }
        }
        match rf {
            Ok(_) => {},
            Err(e) => {
                proof {
                    let (m1, m2, m3, r1, r2) = choose|m1: Table, m2: Table, m3: Table, r1: Result<(), PKError>, r2: Result<(), PKError>|
                        Table::forced_bets_steps(m0, m1, m2, m3, r1, r2, mf, rf);
                    assert(Table::forced_bets_steps(m0, m1, m2, m3, r1, r2, mf, Err::<(), PKError>(e)));
                    assert(crate::casino::table::dealing::blinds_refused(m0, e));
                }
                return Err(DealerError::TableError(e));
            },
        }
        let rd = self.table.deal_cards_to_seats();
        proof {
            let (m1, m2, m3, r1, r2) = choose|m1: Table, m2: Table, m3: Table, r1: Result<(), PKError>, r2: Result<(), PKError>|
                Table::forced_bets_steps(m0, m1, m2, m3, r1, r2, mf, rf);
            assert(Table::forced_bets_steps(m0, m1, m2, m3, r1, r2, mf, rf));
            assert(crate::casino::table::dealing::hand_dealt(m0, self.table, rd));
            if m0.deck@.len() >= 2 * m0.seats@.len() && crate::casino::table::dealing::room_for_two(m0.seats@) {
                crate::casino::table::dealing::lemma_posting_keeps_room(m0, m1, m2, m3, r1, r2, mf);
                assert(rd is Ok);
            }
        }
        match rd {
            Ok(_) => {},
            Err(e) => {
                return Err(DealerError::TableError(e));
            },
        }
        self.hand_in_progress = true;
        Ok(())
    }

    /// Ends the betting street: the bets go into the pot and, unless that
    /// ends the hand, the next street's cards are dealt and the seats in
    /// the hand act again. Refused with `HandNotStarted` when no hand is
    /// played and while the betting is not complete; a failed step answers
    /// the table's error.
    pub fn advance_street(&mut self) -> (r: Result<(), DealerError>)
        requires
            old(self).wf(),
        ensures
            final(self).wf(),
            final(self).hand_in_progress == old(self).hand_in_progress,
            final(self).table.chips_on_table() == old(self).table.chips_on_table(),
            !old(self).in_hand() ==> r == Err::<(), DealerError>(DealerError::HandNotStarted) && final(self).table
                == old(self).table,
            old(self).in_hand() && !crate::casino::table::seats::betting_complete(old(self).table.seats@) ==> (r matches Err(
                DealerError::IllegalAction { action, reason },
            ) && action == DealerAction::BringItIn && reason@ == "Betting round is not complete"@)
                && final(self).table == old(self).table,
            old(self).in_hand() && crate::casino::table::seats::betting_complete(old(self).table.seats@) && r is Ok
                ==> final(self).table.pot == old(self).table.pot + crate::casino::table::seats::bets(
                old(self).table.seats@,
            ),
            r is Ok ==> street_dealt(old(self).table, final(self).table),
            r is Ok && !final(self).table.game_over() ==> {
                let n = old(self).table.board@.len();
                &&& n == 0 ==> final(self).table.board@.len() == 3
                &&& n == 3 ==> final(self).table.board@.len() == 4
                &&& n == 4 ==> final(self).table.board@.len() == 5
            },
            old(self).in_hand() && crate::casino::table::seats::betting_complete(old(self).table.seats@)
                && !old(self).table.game_over() && !crate::casino::session::short_for_next_street(old(self).table)
                ==> r is Ok,
    {
        if !self.hand_in_progress {
            return Err(DealerError::HandNotStarted);
        }
        if !self.table.seats.is_betting_complete() {
            return Err(
                DealerError::IllegalAction {
                    action: DealerAction::BringItIn,
                    reason: String::from_str("Betting round is not complete"),
                },
            );
        }
        let ghost start = self.table;
        match self.table.bring_it_in() {
            Ok(_) => {},
            Err(e) => {
                return Err(DealerError::TableError(e));
            },
        }
        if self.table.is_game_over() {
            proof {
                let mid = self.table;
                assert(Table::bring_in_outcome(start, mid, Ok::<usize, PKError>(mid.pot)) && mid.game_over()
                    && mid.board == start.board);
            }
            return Ok(());
        }
        let ghost collected = self.table;
        let n = self.table.board.len();
        let dealt = if n == 0 {
            self.table.deal_flop()
        } else if n == 3 {
            self.table.deal_turn()
        } else if n == 4 {
            self.table.deal_river()
        } else {
            Ok(())
        };
        match dealt {
            Ok(_) => {},
            Err(e) => {
                return Err(DealerError::TableError(e));
            },
        }
        let ghost dealt_table = self.table;
        proof {
            assert(dealt_table.seats == collected.seats && dealt_table.pot == collected.pot);
        }
        self.table.seats.reset_state_in_hand();
        proof {
            crate::casino::table::dealing::lemma_holdings_same_stacks(dealt_table.seats@, self.table.seats@);
            assert forall|j: int| 0 <= j < self.table.seats@.len() implies (#[trigger] self.table.seats@[j]).player.wf() by {
                assert(dealt_table.seats@[j].player.wf());
            }
            assert(self.table.board == dealt_table.board);
            assert(collected.board == start.board);
            if n == 3 {
                assert(dealt_table.board@ == collected.board@.push(dealt_table.board@[3]));
                assert(dealt_table.board@.subrange(0, 3) =~= start.board@);
            } else if n == 4 {
                assert(dealt_table.board@ == collected.board@.push(dealt_table.board@[4]));
                assert(dealt_table.board@.subrange(0, 4) =~= start.board@);
            }
        }
        Ok(())
    }

    /// Ends the hand once it is over, settling it with the hands ranked by
    /// `ranks`, and answers the winnings. Refused with `HandNotStarted`
    /// when no hand is played, while the hand is not over, and with the
    /// table's error when the settling fails.
    pub fn end_hand(&mut self, ranks: &Vec<HandRank>) -> (r: Result<Vec<Winnings>, DealerError>)
        requires
            old(self).wf(),
            ranks@.len() >= old(self).table.seats@.len(),
            holdings(old(self).table.seats@) + old(self).table.pot + committed(old(self).table.seats@) <= usize::MAX,
        ensures
            final(self).wf(),
            !old(self).in_hand() ==> r == Err::<Vec<Winnings>, DealerError>(DealerError::HandNotStarted)
                && final(self).table == old(self).table,
            old(self).in_hand() && !old(self).table.game_over() ==> (r matches Err(
                DealerError::IllegalAction { action, reason },
            ) && action == DealerAction::EndHand && reason@ == "Hand is not over yet"@) && final(self).table
                == old(self).table,
            old(self).in_hand() && old(self).table.game_over() ==> exists|w: Result<Vec<Winnings>, PKError>|
                #[trigger] showdown_result(old(self).table, ranks@, w, final(self).table.chips_on_table())
                    && crate::casino::table::showdown::showdown_paid(old(self).table, ranks@, w, final(self).table.seats@)
                    && (w matches Ok(v) ==> r == Ok::<Vec<Winnings>, DealerError>(v)) && (w matches Err(e)
                    ==> r == Err::<Vec<Winnings>, DealerError>(DealerError::TableError(e))),
            r is Ok ==> !final(self).in_hand(),
            r is Err ==> final(self).in_hand() == old(self).in_hand(),
    {
        if !self.hand_in_progress {
            return Err(DealerError::HandNotStarted);
        }
        if !self.table.is_game_over() {
            return Err(
                DealerError::IllegalAction {
                    action: DealerAction::EndHand,
                    reason: String::from_str("Hand is not over yet"),
                },
            );
        }
        let ghost before = self.table;
        let w = self.table.end_hand(ranks);
        proof {
            assert(showdown_result(before, ranks@, w, self.table.chips_on_table()));
            assert(crate::casino::table::showdown::showdown_paid(before, ranks@, w, self.table.seats@));
        }
        match w {
            Ok(v) => {
                self.hand_in_progress = false;
                Ok(v)
            },
            Err(e) => Err(DealerError::TableError(e)),
        }
    }

    /// Takes a player's action: a readiness call readies the seat unless
    /// its player is still in the hand; any other action is refused with
    /// `HandNotStarted` when no hand is played, `HandAlreadyOver` once the
    /// hand is over, as an illegal action for the dealer's own events and
    /// for what the dealer or the table turns away, and otherwise moves
    /// the table.
    pub fn act(&mut self, action: DealerAction) -> (r: Result<(), DealerError>)
        requires
            old(self).wf(),
        ensures
            final(self).wf(),
            final(self).hand_in_progress == old(self).hand_in_progress,
            final(self).table.chips_on_table() == old(self).table.chips_on_table(),
            action matches DealerAction::Ready { seat } ==> (if seat < old(self).table.seats@.len()
                && old(self).table.seats@[seat as int].in_hand() {
                r == Err::<(), DealerError>(DealerError::HandInProgress) && final(self).table == old(self).table
            } else {
                match ready_refusal(old(self).table, seat) {
                    Some(e) => r == Err::<(), DealerError>(e) && final(self).table == old(self).table,
                    None => r is Ok && final(self).table.seats@[seat as int].player.state == PlayerState::Ready,
                }
            }),
            !action.is_ready() && !old(self).in_hand() ==> r == Err::<(), DealerError>(DealerError::HandNotStarted)
                && final(self).table == old(self).table,
            !action.is_ready() && old(self).in_hand() && old(self).table.game_over() ==> r == Err::<
                (),
                DealerError,
            >(DealerError::HandAlreadyOver) && final(self).table == old(self).table,
            !action.is_ready() && !is_player_move(action) && old(self).in_hand() && !old(self).table.game_over()
                ==> (r matches Err(DealerError::IllegalAction { action: a, reason }) && a == action && reason@
                == "This is a dealer event, not a player action"@) && final(self).table == old(self).table,
            is_player_move(action) && old(self).in_hand() && !old(self).table.game_over() ==> match dealer_refusal(
                old(self).table,
                action,
            ) {
                Some(why) => (r matches Err(DealerError::IllegalAction { action: a, reason }) && a == action
                    && reason@ == why) && final(self).table == old(self).table,
                None => (table_answer(old(self).table, action) is Ok <==> r is Ok) && (table_answer(
                    old(self).table,
                    action,
                ) matches Err(e) ==> (r matches Err(DealerError::IllegalAction { action: a, reason }) && a
                    == action && reason@ == pk_error_text(e))) && exists|inner: Result<usize, PKError>|
                    #[trigger] table_moved(old(self).table, action, final(self).table, inner),
            },
    {
        match action {
            DealerAction::Ready { seat } => {
                if (seat as usize) < self.table.seats.0.len() && self.table.seats.0[seat as usize].is_in_hand() {
                    return Err(DealerError::HandInProgress);
                }
                return match self.do_ready(seat) {
                    Ok(_) => Ok(()),
                    Err(e) => Err(e),
                };
            },
            _ => {},
        }
        if !self.hand_in_progress {
            return Err(DealerError::HandNotStarted);
        }
        if self.table.is_game_over() {
            return Err(DealerError::HandAlreadyOver);
        }
        match action {
            DealerAction::Bet { .. } | DealerAction::Call { .. } | DealerAction::Check { .. }
            | DealerAction::Raise { .. } | DealerAction::AllIn { .. } | DealerAction::Fold { .. } => {
                match self.prevalidate(action) {
                    Ok(_) => {},
                    Err(e) => {
                        return Err(e);
                    },
                }
                self.route(action)
            },
            _ => Err(
                DealerError::IllegalAction {
                    action,
                    reason: String::from_str("This is a dealer event, not a player action"),
                },
            ),
        }
    }

    /// The table's id.
    pub fn table_id(&self) -> (id: u128)
        ensures
            id == self.table.id,
    {
        self.table.id
    }

    /// Whether a hand is being played.
    pub fn is_hand_in_progress(&self) -> (b: bool)
        ensures
            b == self.in_hand(),
    {
        self.hand_in_progress
    }

    /// The table's event log.
    pub fn event_log(&self) -> (log: &Vec<TableAction>)
        ensures
            log@ == self.table.event_log@,
    {
        &self.table.event_log
    }

    /// The seat whose turn it is.
    pub fn next_to_act(&self) -> (n: u8)
        requires
            self.wf(),
        ensures
            n == self.table.next_to_act_spec(),
    {
        self.table.next_to_act()
    }

    /// The chips in the pot.
    pub fn pot(&self) -> (n: usize)
        ensures
            n == self.table.pot,
    {
        self.table.pot
    }

    /// The stack at `seat`; `None` past the end of the ring.
    pub fn chips_at(&self, seat: u8) -> (r: Option<usize>)
        ensures
            seat < self.table.seats@.len() ==> r == Some(self.table.seats@[seat as int].player.chips),
            seat >= self.table.seats@.len() ==> r is None,
    {
        match self.table.get_seat(seat) {
            Some(s) => Some(s.player.chips),
            None => None,
        }
    }

    /// The dealer's text: the table it runs and whether a hand is played.
    pub fn to_string(&self) -> (s: String)
        ensures
            s@ == "Dealer managing table "@ + crate::text::id_text(self.table.id) + "\nHand in progress: "@ + (if self.in_hand() {
                "yes"@
            } else {
                "no"@
            }) + "\n"@,
    {
        let mut s = String::new();
        s.append("Dealer managing table ");
        crate::text::push_id(&mut s, self.table.id);
        s.append("\nHand in progress: ");
        if self.hand_in_progress {
            s.append("yes");
        } else {
            s.append("no");
        }
        s.append("\n");
        s
    }
}

} // verus!
