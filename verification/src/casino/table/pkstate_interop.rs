//! A table written down as a hand state: the players in seat order, the
//! blinds, the board and the event log cut into rounds at each street,
//! every entry of a seat that the hand-state format names mapped to its
//! action. The format names the seats up to `MAX_STATE_SEAT`.
use vstd::prelude::*;

use crate::card::{bard_cards, Bard, Card};
use crate::casino::action::TableAction;
use crate::casino::table::Table;

verus! {

/// The highest seat the hand-state format names.
pub const MAX_STATE_SEAT: u8 = 11;

/// One action of a round, by seat.
#[derive(Clone, Copy, Debug, PartialEq, Eq)]
pub enum StateAction {
    /// Common cards dealt to the board.
    DealCommon(Bard),
    /// Hole cards dealt to a seat.
    Dealt(u8, Bard),
    Check(u8),
    /// A call, bet or raise (blinds and all-ins too), by its amount.
    Cbr(u8, usize),
    Fold(u8),
    Wins(u8, usize),
    Loses(u8, usize),
}

/// A player of the hand state.
#[derive(Clone, Debug, PartialEq, Eq)]
pub struct StateSeat {
    pub id: u128,
    pub name: String,
    pub stack: usize,
}

/// The hand state of a table.
#[derive(Clone, Debug, PartialEq, Eq)]
pub struct HandState {
    pub id: u128,
    pub button: u8,
    pub small_blind: usize,
    pub big_blind: usize,
    /// `None` before the flop.
    pub board: Option<Vec<Card>>,
    pub players: Vec<StateSeat>,
    pub rounds: Vec<Vec<StateAction>>,
}

/// Whether the mask holds a card.
pub open spec fn has_cards(b: Bard) -> bool {
    bard_cards(b).len() > 0
}

/// The board cards that a log entry deals, where it deals some.
pub open spec fn street_cards(a: TableAction) -> Option<Bard> {
    match a {
        TableAction::DealtFlop(b) => Some(b),
        TableAction::DealtTurn(b) => Some(b),
        TableAction::DealtRiver(b) => Some(b),
        _ => None,
    }
}

/// The hole-card action of a seat: none past the seats the format names,
/// nor for a mask without a card.
pub open spec fn dealt_state(seat: u8, b: Bard) -> Option<StateAction> {
    if seat <= MAX_STATE_SEAT && has_cards(b) {
        Some(StateAction::Dealt(seat, b))
    } else {
        None
    }
}

/// The action a log entry that deals no board card stands for, if any.
pub open spec fn state_of(a: TableAction) -> Option<StateAction> {
    match a {
        TableAction::Dealt(s, b) => dealt_state(s, b),
        TableAction::ForceDealt(s, b) => dealt_state(s, b),
        TableAction::Check(s) => if s <= MAX_STATE_SEAT { Some(StateAction::Check(s)) } else { None },
        TableAction::Bet(s, x) => if s <= MAX_STATE_SEAT { Some(StateAction::Cbr(s, x)) } else { None },
        TableAction::Call(s, x) => if s <= MAX_STATE_SEAT { Some(StateAction::Cbr(s, x)) } else { None },
        TableAction::Raise(s, x) => if s <= MAX_STATE_SEAT { Some(StateAction::Cbr(s, x)) } else { None },
        TableAction::AllIn(s, x) => if s <= MAX_STATE_SEAT { Some(StateAction::Cbr(s, x)) } else { None },
        TableAction::ForcedBetSmallBlind(s, x) => if s <= MAX_STATE_SEAT { Some(StateAction::Cbr(s, x)) } else { None },
        TableAction::ForcedBetBigBlind(s, x) => if s <= MAX_STATE_SEAT { Some(StateAction::Cbr(s, x)) } else { None },
        TableAction::Fold(s) => if s <= MAX_STATE_SEAT { Some(StateAction::Fold(s)) } else { None },
        TableAction::PlayerWins(s, _, _, x, _) => if s <= MAX_STATE_SEAT { Some(StateAction::Wins(s, x)) } else { None },
        TableAction::PlayerWinsMainPot(s, x) => if s <= MAX_STATE_SEAT { Some(StateAction::Wins(s, x)) } else { None },
        TableAction::PlayerWinsSidePot(s, x) => if s <= MAX_STATE_SEAT { Some(StateAction::Wins(s, x)) } else { None },
        TableAction::PlayerLoses(s, _, _, x) => if s <= MAX_STATE_SEAT { Some(StateAction::Loses(s, x)) } else { None },
        TableAction::PlayerLosesMainPot(s, x) => if s <= MAX_STATE_SEAT { Some(StateAction::Loses(s, x)) } else { None },
        TableAction::PlayerLosesSidePot(s, x) => if s <= MAX_STATE_SEAT { Some(StateAction::Loses(s, x)) } else { None },
        _ => None,
    }
}

/// The rounds closed and the round open after the first `n` entries of the
/// log: a street dealt closes the open round, where it has an action, and
/// opens the next with the cards dealt; any other entry that stands for an
/// action joins the open round.
pub open spec fn rounds_after(log: Seq<TableAction>, n: nat) -> (Seq<Seq<StateAction>>, Seq<StateAction>)
    decreases n,
{
    if n == 0 || n > log.len() {
        (Seq::empty(), Seq::empty())
    } else {
        let (closed, open) = rounds_after(log, (n - 1) as nat);
        let a = log[n - 1];
        match street_cards(a) {
            Some(b) => (
                if open.len() > 0 { closed.push(open) } else { closed },
                if has_cards(b) { seq![StateAction::DealCommon(b)] } else { Seq::empty() },
            ),
            None => match state_of(a) {
                Some(x) => (closed, open.push(x)),
                None => (closed, open),
            },
        }
    }
}

/// The rounds of the whole log, the last one closed where it has an action.
pub open spec fn rounds_of(log: Seq<TableAction>) -> Seq<Seq<StateAction>> {
    let (closed, open) = rounds_after(log, log.len());
    if open.len() > 0 {
        closed.push(open)
    } else {
        closed
    }
}

/// The view of the rounds.
pub open spec fn rounds_view(r: Seq<Vec<StateAction>>) -> Seq<Seq<StateAction>> {
    r.map_values(|v: Vec<StateAction>| v@)
}

/// Whether the mask holds a card.
fn holds_cards(b: Bard) -> (r: bool)
    ensures
        r == has_cards(b),
{
    b.cards().len() > 0
}

/// The hole-card action of `seat`: `None` past the seats the format names
/// and for a mask without a card.
pub fn dealt_action(seat: u8, bard: Bard) -> (r: Option<StateAction>)
    ensures
        r == dealt_state(seat, bard),
{
    if !holds_cards(bard) {
        return None;
    }
    if seat <= MAX_STATE_SEAT {
        Some(StateAction::Dealt(seat, bard))
    } else {
        None
    }
}

/// The action that `a`, an entry that deals no board card, stands for.
fn state_action(a: &TableAction) -> (r: Option<StateAction>)
    ensures
        r == state_of(*a),
{
    let m = MAX_STATE_SEAT;
    match a {
        TableAction::Dealt(s, b) => dealt_action(*s, *b),
        TableAction::ForceDealt(s, b) => dealt_action(*s, *b),
        TableAction::Check(s) => if *s <= m { Some(StateAction::Check(*s)) } else { None },
        TableAction::Bet(s, x) => if *s <= m { Some(StateAction::Cbr(*s, *x)) } else { None },
        TableAction::Call(s, x) => if *s <= m { Some(StateAction::Cbr(*s, *x)) } else { None },
        TableAction::Raise(s, x) => if *s <= m { Some(StateAction::Cbr(*s, *x)) } else { None },
        TableAction::AllIn(s, x) => if *s <= m { Some(StateAction::Cbr(*s, *x)) } else { None },
        TableAction::ForcedBetSmallBlind(s, x) => if *s <= m { Some(StateAction::Cbr(*s, *x)) } else { None },
        TableAction::ForcedBetBigBlind(s, x) => if *s <= m { Some(StateAction::Cbr(*s, *x)) } else { None },
        TableAction::Fold(s) => if *s <= m { Some(StateAction::Fold(*s)) } else { None },
        TableAction::PlayerWins(s, _, _, x, _) => if *s <= m { Some(StateAction::Wins(*s, *x)) } else { None },
        TableAction::PlayerWinsMainPot(s, x) => if *s <= m { Some(StateAction::Wins(*s, *x)) } else { None },
        TableAction::PlayerWinsSidePot(s, x) => if *s <= m { Some(StateAction::Wins(*s, *x)) } else { None },
        TableAction::PlayerLoses(s, _, _, x) => if *s <= m { Some(StateAction::Loses(*s, *x)) } else { None },
        TableAction::PlayerLosesMainPot(s, x) => if *s <= m { Some(StateAction::Loses(*s, *x)) } else { None },
        TableAction::PlayerLosesSidePot(s, x) => if *s <= m { Some(StateAction::Loses(*s, *x)) } else { None },
        _ => None,
    }
}

/// The board cards that `a` deals, if it deals a street.
fn dealt_street(a: &TableAction) -> (r: Option<Bard>)
    ensures
        r == street_cards(*a),
{
    match a {
        TableAction::DealtFlop(b) => Some(*b),
        TableAction::DealtTurn(b) => Some(*b),
        TableAction::DealtRiver(b) => Some(*b),
        _ => None,
    }
}

/// The log cut into rounds at each street dealt.
pub fn split_rounds(log: &Vec<TableAction>) -> (r: Vec<Vec<StateAction>>)
    ensures
        rounds_view(r@) == rounds_of(log@),
{
    let mut rounds: Vec<Vec<StateAction>> = Vec::new();
    let mut current: Vec<StateAction> = Vec::new();
    let mut i: usize = 0;
    while i < log.len()
        invariant
            i <= log@.len(),
            (rounds_view(rounds@), current@) == rounds_after(log@, i as nat),
        decreases log@.len() - i,
    {
        let a = &log[i];
        match dealt_street(a) {
            Some(b) => {
                if current.len() > 0 {
                    let ghost before = rounds@;
                    let closed = current;
                    rounds.push(closed);
                    proof {
                        assert(rounds_view(rounds@) =~= rounds_view(before).push(closed@));
                    }
                }
                current = Vec::new();
                if holds_cards(b) {
                    current.push(StateAction::DealCommon(b));
                }
                proof {
                    assert(current@ =~= (if has_cards(b) { seq![StateAction::DealCommon(b)] } else { Seq::empty() }));
                }
            },
            None => {
                match state_action(a) {
                    Some(x) => current.push(x),
                    None => {},
                }
            },
        }
        i = i + 1;
    }
    if current.len() > 0 {
        let ghost before = rounds@;
        let last = current;
        rounds.push(last);
        proof {
            assert(rounds_view(rounds@) =~= rounds_view(before).push(last@));
        }
    }
    rounds
}

/// Whether `p` is what the hand state says of the seat `x`.
pub open spec fn seat_state_of(p: StateSeat, x: crate::casino::table::seat::Seat) -> bool {
    p.id == x.player.id && p.name@ == x.player.handle@ && p.stack == x.player.chips
}

impl HandState {
    /// The hand state of `table`: its id and button, the blinds, the board
    /// once a card is out, every seat's player id, name and stack in seat
    /// order, and the log cut into rounds.
    pub fn from_table(table: &Table) -> (h: HandState)
        ensures
            h.id == table.id,
            h.button == table.button,
            h.small_blind == table.forced.small_blind && h.big_blind == table.forced.big_blind,
            table.board@.len() == 0 ==> h.board is None,
            table.board@.len() > 0 ==> (h.board matches Some(b) && b@ == table.board@),
            h.players@.len() == table.seats@.len(),
            forall|i: int| 0 <= i < h.players@.len() ==> seat_state_of(#[trigger] h.players@[i], table.seats@[i]),
            rounds_view(h.rounds@) == rounds_of(table.event_log@),
    {
        let mut players: Vec<StateSeat> = Vec::new();
        let n = table.seats.0.len();
        let mut i: usize = 0;
        while i < n
            invariant
                i <= n == table.seats@.len(),
                players@.len() == i,
                forall|k: int| 0 <= k < i ==> seat_state_of(#[trigger] players@[k], table.seats@[k]),
            decreases n - i,
        {
            let p = &table.seats.0[i].player;
            players.push(StateSeat { id: p.id, name: p.handle.clone(), stack: p.chips });
            i = i + 1;
        }
        let board = if table.board.len() == 0 {
            None
        } else {
            Some(table.board.clone())
        };
        HandState {
            id: table.id,
            button: table.button,
            small_blind: table.forced.small_blind,
            big_blind: table.forced.big_blind,
            board,
            players,
            rounds: split_rounds(&table.event_log),
        }
    }
}

} // verus!
