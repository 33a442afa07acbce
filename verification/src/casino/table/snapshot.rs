//! The written-down form of a table: mid-hand and resumable. The snapshot
//! holds every field of the table as plain values, the undealt deck in
//! order among them, so whoever holds one can read the hand's future; it
//! is kept away from players. Restoring refuses a snapshot of another
//! version before it reads any other field.
use vstd::prelude::*;

use crate::card::{BoxedCards, Card, DECK_SIZE};
use crate::casino::action::TableAction;
use crate::casino::game::ForcedBets;
use crate::casino::state::PlayerState;
use crate::casino::table::player::Player;
use crate::casino::table::seat::Seat;
use crate::casino::table::seats::Seats;
use crate::casino::table::{GamePhase, Table};
use crate::error::PKError;

verus! {

/// The version of the snapshot's layout; restoring refuses any other.
pub const SNAPSHOT_VERSION: u16 = 1;

/// One seat, flattened.
#[derive(Clone, Debug, PartialEq, Eq)]
pub struct SeatState {
    pub id: u128,
    pub handle: String,
    pub chips: usize,
    pub bet: usize,
    pub chips_in_play: usize,
    pub withdrawn: usize,
    pub state: PlayerState,
    /// How many cards the seat's box holds when full.
    pub slots: usize,
    /// The cards dealt to the seat, in dealing order.
    pub cards: Vec<Card>,
    pub bet_level_when_last_acted: usize,
}

/// The written-down form of a table.
#[derive(Clone, Debug, PartialEq, Eq)]
pub struct TableState {
    pub version: u16,
    pub id: u128,
    pub name: String,
    pub phase: GamePhase,
    pub forced: ForcedBets,
    pub button: u8,
    /// The undealt cards, top first: the future of the hand.
    pub deck: Vec<Card>,
    pub board: Vec<Card>,
    pub muck: Vec<Card>,
    pub pot: usize,
    pub bet: usize,
    pub raise_increment: usize,
    pub hand_chip_total: usize,
    pub raises_this_street: u8,
    pub seats: Vec<SeatState>,
    /// `(seat, slots, cards)` of each box noted as dealt, in the order noted.
    pub dealt_hole_cards: Vec<(u8, usize, Vec<Card>)>,
    pub event_log: Vec<TableAction>,
}

/// Whether `st` is the flattened form of the seat `x`.
pub open spec fn seat_state_of(x: Seat, st: SeatState) -> bool {
    &&& st.id == x.player.id
    &&& st.handle@ == x.player.handle@
    &&& st.chips == x.player.chips
    &&& st.bet == x.player.bet
    &&& st.chips_in_play == x.player.chips_in_play
    &&& st.withdrawn == x.player.withdrawn
    &&& st.state == x.player.state
    &&& st.slots == x.cards.slots
    &&& st.cards@ == x.cards.dealt@
    &&& st.bet_level_when_last_acted == x.bet_level_when_last_acted
}

/// Whether `d` is the flattened form of the noted box `e`.
pub open spec fn dealt_state_of(e: (u8, BoxedCards), d: (u8, usize, Vec<Card>)) -> bool {
    d.0 == e.0 && d.1 == e.1.slots && d.2@ == e.1.dealt@
}

/// Whether `s` is the snapshot of the table `t`: this version, and every
/// field of the table as it stands.
pub open spec fn snapshot_of(t: Table, s: TableState) -> bool {
    &&& s.version == SNAPSHOT_VERSION
    &&& s.id == t.id
    &&& s.name@ == t.name@
    &&& s.phase == t.phase
    &&& s.forced == t.forced
    &&& s.button == t.button
    &&& s.deck@ == t.deck@
    &&& s.board@ == t.board@
    &&& s.muck@ == t.muck@
    &&& s.pot == t.pot
    &&& s.bet == t.bet
    &&& s.raise_increment == t.raise_increment
    &&& s.hand_chip_total == t.hand_chip_total
    &&& s.raises_this_street == t.raises_this_street
    &&& s.seats@.len() == t.seats@.len()
    &&& forall|i: int| 0 <= i < s.seats@.len() ==> seat_state_of(t.seats@[i], #[trigger] s.seats@[i])
    &&& s.dealt_hole_cards@.len() == t.dealt_hole_cards@.len()
    &&& forall|i: int|
        0 <= i < s.dealt_hole_cards@.len() ==> dealt_state_of(t.dealt_hole_cards@[i], #[trigger] s.dealt_hole_cards@[i])
    &&& s.event_log@ == t.event_log@
}

/// Whether every card of `v` is one of the deck's.
pub open spec fn cards_valid(v: Seq<Card>) -> bool {
    forall|i: int| 0 <= i < v.len() ==> (#[trigger] v[i]).0 < DECK_SIZE
}

/// Whether every card the snapshot names is one of the deck's.
pub open spec fn snapshot_cards_valid(s: TableState) -> bool {
    &&& cards_valid(s.deck@)
    &&& cards_valid(s.board@)
    &&& cards_valid(s.muck@)
    &&& forall|i: int| 0 <= i < s.seats@.len() ==> cards_valid((#[trigger] s.seats@[i]).cards@)
    &&& forall|i: int| 0 <= i < s.dealt_hole_cards@.len() ==> cards_valid((#[trigger] s.dealt_hole_cards@[i]).2@)
}

/// Two tables agree on every field.
pub open spec fn same_table(a: Table, b: Table) -> bool {
    &&& a.id == b.id && a.name@ == b.name@ && a.phase == b.phase && a.forced == b.forced
    &&& a.button == b.button && a.deck@ == b.deck@ && a.board@ == b.board@ && a.muck@ == b.muck@
    &&& a.pot == b.pot && a.bet == b.bet && a.raise_increment == b.raise_increment
    &&& a.hand_chip_total == b.hand_chip_total && a.raises_this_street == b.raises_this_street
    &&& a.seats@.len() == b.seats@.len()
    &&& forall|i: int|
        0 <= i < a.seats@.len() ==> {
            let x = #[trigger] a.seats@[i];
            let y = b.seats@[i];
            &&& x.player.id == y.player.id && x.player.handle@ == y.player.handle@
            &&& x.player.chips == y.player.chips && x.player.bet == y.player.bet
            &&& x.player.chips_in_play == y.player.chips_in_play && x.player.withdrawn == y.player.withdrawn
            &&& x.player.state == y.player.state && x.cards.slots == y.cards.slots
            &&& x.cards.dealt@ == y.cards.dealt@ && x.bet_level_when_last_acted == y.bet_level_when_last_acted
        }
    &&& a.dealt_hole_cards@.len() == b.dealt_hole_cards@.len()
    &&& forall|i: int|
        0 <= i < a.dealt_hole_cards@.len() ==> {
            let x = #[trigger] a.dealt_hole_cards@[i];
            let y = b.dealt_hole_cards@[i];
            x.0 == y.0 && x.1.slots == y.1.slots && x.1.dealt@ == y.1.dealt@
        }
    &&& a.event_log@ == b.event_log@
}

/// A table restored from a snapshot of another agrees with it on every
/// field: restoring a snapshot gives back the table it was taken of.
pub proof fn lemma_restore_gives_back(t: Table, s: TableState, u: Table)
    requires
        snapshot_of(t, s),
        snapshot_of(u, s),
    ensures
        same_table(t, u),
{
    assert forall|i: int| 0 <= i < t.dealt_hole_cards@.len() implies {
        let x = #[trigger] t.dealt_hole_cards@[i];
        let y = u.dealt_hole_cards@[i];
        x.0 == y.0 && x.1.slots == y.1.slots && x.1.dealt@ == y.1.dealt@
    } by {
        assert(dealt_state_of(t.dealt_hole_cards@[i], s.dealt_hole_cards@[i]));
        assert(dealt_state_of(u.dealt_hole_cards@[i], s.dealt_hole_cards@[i]));
    }
    assert forall|i: int| 0 <= i < t.seats@.len() implies {
        let x = #[trigger] t.seats@[i];
        let y = u.seats@[i];
        &&& x.player.id == y.player.id && x.player.handle@ == y.player.handle@
        &&& x.player.chips == y.player.chips && x.player.bet == y.player.bet
        &&& x.player.chips_in_play == y.player.chips_in_play && x.player.withdrawn == y.player.withdrawn
        &&& x.player.state == y.player.state && x.cards.slots == y.cards.slots
        &&& x.cards.dealt@ == y.cards.dealt@ && x.bet_level_when_last_acted == y.bet_level_when_last_acted
    } by {
        assert(seat_state_of(t.seats@[i], s.seats@[i]));
        assert(seat_state_of(u.seats@[i], s.seats@[i]));
    }
}

/// Whether every card of `v` is one of the deck's.
fn all_valid(v: &Vec<Card>) -> (b: bool)
    ensures
        b == cards_valid(v@),
{
    let mut i: usize = 0;
    while i < v.len()
        invariant
            i <= v@.len(),
            forall|k: int| 0 <= k < i ==> (#[trigger] v@[k]).0 < DECK_SIZE,
        decreases v@.len() - i,
    {
        if v[i].0 >= 52 {
            return false;
        }
        i = i + 1;
    }
    true
}

/// A copy of the cards.
fn copy_cards(v: &Vec<Card>) -> (c: Vec<Card>)
    ensures
        c@ == v@,
{
    let mut c: Vec<Card> = Vec::new();
    let mut i: usize = 0;
    while i < v.len()
        invariant
            i <= v@.len(),
            c@ == v@.subrange(0, i as int),
        decreases v@.len() - i,
    {
        c.push(v[i]);
        i = i + 1;
        proof {
            assert(c@ =~= v@.subrange(0, i as int));
        }
    }
    proof {
        assert(v@.subrange(0, v@.len() as int) =~= v@);
    }
    c
}

/// A copy of the log.
fn copy_log(v: &Vec<TableAction>) -> (c: Vec<TableAction>)
    ensures
        c@ == v@,
{
    let mut c: Vec<TableAction> = Vec::new();
    let mut i: usize = 0;
    while i < v.len()
        invariant
            i <= v@.len(),
            c@ == v@.subrange(0, i as int),
        decreases v@.len() - i,
    {
        c.push(v[i]);
        i = i + 1;
        proof {
            assert(c@ =~= v@.subrange(0, i as int));
        }
    }
    proof {
        assert(v@.subrange(0, v@.len() as int) =~= v@);
    }
    c
}

impl TableState {
    /// The snapshot of `t`: every field as it stands, under this version.
    pub fn snapshot(t: &Table) -> (s: TableState)
        ensures
            snapshot_of(*t, s),
    {
        let mut seats: Vec<SeatState> = Vec::new();
        let mut i: usize = 0;
        while i < t.seats.0.len()
            invariant
                i <= t.seats@.len(),
                seats@.len() == i,
                forall|k: int| 0 <= k < i ==> seat_state_of(t.seats@[k], #[trigger] seats@[k]),
            decreases t.seats@.len() - i,
        {
            let x = &t.seats.0[i];
            seats.push(
                SeatState {
                    id: x.player.id,
                    handle: x.player.handle.clone(),
                    chips: x.player.chips,
                    bet: x.player.bet,
                    chips_in_play: x.player.chips_in_play,
                    withdrawn: x.player.withdrawn,
                    state: x.player.state,
                    slots: x.cards.slots,
                    cards: copy_cards(&x.cards.dealt),
                    bet_level_when_last_acted: x.bet_level_when_last_acted,
                },
            );
            i = i + 1;
        }
        let mut dealt: Vec<(u8, usize, Vec<Card>)> = Vec::new();
        let mut j: usize = 0;
        while j < t.dealt_hole_cards.len()
            invariant
                j <= t.dealt_hole_cards@.len(),
                dealt@.len() == j,
                forall|k: int| 0 <= k < j ==> dealt_state_of(t.dealt_hole_cards@[k], #[trigger] dealt@[k]),
            decreases t.dealt_hole_cards@.len() - j,
        {
            let e = &t.dealt_hole_cards[j];
            dealt.push((e.0, e.1.slots, copy_cards(&e.1.dealt)));
            j = j + 1;
        }
        TableState {
            version: SNAPSHOT_VERSION,
            id: t.id,
            name: t.name.clone(),
            phase: t.phase,
            forced: t.forced,
            button: t.button,
            deck: copy_cards(&t.deck),
            board: copy_cards(&t.board),
            muck: copy_cards(&t.muck),
            pot: t.pot,
            bet: t.bet,
            raise_increment: t.raise_increment,
            hand_chip_total: t.hand_chip_total,
            raises_this_street: t.raises_this_street,
            seats,
            dealt_hole_cards: dealt,
            event_log: copy_log(&t.event_log),
        }
    }
}

impl Table {
    /// The table a snapshot holds. Refused with `SnapshotVersion` when the
    /// snapshot is of another version, before anything else is read, and
    /// with `InvalidCardIndex` when it names a card outside the deck.
    pub fn restore(s: &TableState) -> (r: Result<Table, PKError>)
        ensures
            s.version != SNAPSHOT_VERSION ==> r == Err::<Table, PKError>(
                PKError::SnapshotVersion { found: s.version, expected: SNAPSHOT_VERSION },
            ),
            s.version == SNAPSHOT_VERSION && !snapshot_cards_valid(*s) ==> r == Err::<Table, PKError>(
                PKError::InvalidCardIndex,
            ),
            s.version == SNAPSHOT_VERSION && snapshot_cards_valid(*s) ==> (r matches Ok(t) && snapshot_of(t, *s)),
    {
        if s.version != SNAPSHOT_VERSION {
            return Err(PKError::SnapshotVersion { found: s.version, expected: SNAPSHOT_VERSION });
        }
        if !all_valid(&s.deck) || !all_valid(&s.board) || !all_valid(&s.muck) {
            return Err(PKError::InvalidCardIndex);
        }
        let mut seats: Vec<Seat> = Vec::new();
        let mut i: usize = 0;
        while i < s.seats.len()
            invariant
                i <= s.seats@.len(),
                s.version == SNAPSHOT_VERSION,
                cards_valid(s.deck@) && cards_valid(s.board@) && cards_valid(s.muck@),
                seats@.len() == i,
                forall|k: int| 0 <= k < i ==> seat_state_of(#[trigger] seats@[k], s.seats@[k]),
                forall|k: int| 0 <= k < i ==> cards_valid((#[trigger] s.seats@[k]).cards@),
            decreases s.seats@.len() - i,
        {
            let st = &s.seats[i];
            if !all_valid(&st.cards) {
                return Err(PKError::InvalidCardIndex);
            }
            let player = Player {
                id: st.id,
                handle: st.handle.clone(),
                chips: st.chips,
                bet: st.bet,
                chips_in_play: st.chips_in_play,
                withdrawn: st.withdrawn,
                state: st.state,
            };
            seats.push(
                Seat {
                    player,
                    cards: BoxedCards { slots: st.slots, dealt: copy_cards(&st.cards) },
                    bet_level_when_last_acted: st.bet_level_when_last_acted,
                },
            );
            i = i + 1;
        }
        let mut dealt: Vec<(u8, BoxedCards)> = Vec::new();
        let mut j: usize = 0;
        while j < s.dealt_hole_cards.len()
            invariant
                j <= s.dealt_hole_cards@.len(),
                s.version == SNAPSHOT_VERSION,
                cards_valid(s.deck@) && cards_valid(s.board@) && cards_valid(s.muck@),
                forall|k: int| 0 <= k < s.seats@.len() ==> cards_valid((#[trigger] s.seats@[k]).cards@),
                dealt@.len() == j,
                forall|k: int| 0 <= k < j ==> dealt_state_of(#[trigger] dealt@[k], s.dealt_hole_cards@[k]),
                forall|k: int| 0 <= k < j ==> cards_valid((#[trigger] s.dealt_hole_cards@[k]).2@),
            decreases s.dealt_hole_cards@.len() - j,
        {
            let e = &s.dealt_hole_cards[j];
            if !all_valid(&e.2) {
                return Err(PKError::InvalidCardIndex);
            }
            dealt.push((e.0, BoxedCards { slots: e.1, dealt: copy_cards(&e.2) }));
            j = j + 1;
        }
        let t = Table {
            id: s.id,
            name: s.name.clone(),
            forced: s.forced,
            phase: s.phase,
            seats: Seats(seats),
            button: s.button,
            deck: copy_cards(&s.deck),
            board: copy_cards(&s.board),
            muck: copy_cards(&s.muck),
            pot: s.pot,
            bet: s.bet,
            raise_increment: s.raise_increment,
            event_log: copy_log(&s.event_log),
            hand_chip_total: s.hand_chip_total,
            dealt_hole_cards: dealt,
            raises_this_street: s.raises_this_street,
        };
        Ok(t)
    }
}

} // verus!
