//! A hand's history in the shape of the open poker hand-history format:
//! the table, the game and its blinds, the players, the board, and each
//! street's player actions read off the table's event log.
use vstd::prelude::*;

use crate::card::{card_text, Card};
use crate::casino::action::TableAction;
use crate::casino::table::seat::Seat;
use crate::casino::table::Table;
use crate::error::PKError;
use crate::text::id_text;

verus! {

/// The version of the hand-history format written.
pub open spec fn phh_version() -> Seq<char> {
    "1.0"@
}

/// A hand's history.
#[derive(Clone, Debug, PartialEq)]
pub struct PokerHandHistory {
    pub version: String,
    pub hand_id: String,
    pub timestamp: Option<String>,
    pub table: TableInfo,
    pub game: GameInfo,
    pub players: Vec<PlayerInfo>,
    pub button: u8,
    pub actions: HandActions,
    pub board: Option<BoardCards>,
    pub results: Option<Vec<HandResult>>,
    /// Free-form notes, as key and value.
    pub metadata: Option<Vec<(String, String)>>,
}

/// The table a hand was played at.
#[derive(Clone, Debug, PartialEq)]
pub struct TableInfo {
    pub name: String,
    pub max_players: u8,
    pub id: Option<String>,
}

/// The game played and its blinds.
#[derive(Clone, Debug, PartialEq)]
pub struct GameInfo {
    pub variant: String,
    pub blinds: BlindInfo,
}

/// The forced bets of a hand.
#[derive(Clone, Debug, PartialEq)]
pub struct BlindInfo {
    pub small_blind: usize,
    pub big_blind: usize,
    pub ante: Option<usize>,
}

/// A player dealt into the hand.
#[derive(Clone, Debug, PartialEq)]
pub struct PlayerInfo {
    pub seat: u8,
    pub name: String,
    pub stack: usize,
    pub hole_cards: Option<Vec<String>>,
    pub player_id: Option<String>,
}

/// The player actions of each street; a street without one has none.
#[derive(Clone, Debug, Default, PartialEq)]
pub struct HandActions {
    pub preflop: Option<Vec<PlayerAction>>,
    pub flop: Option<Vec<PlayerAction>>,
    pub turn: Option<Vec<PlayerAction>>,
    pub river: Option<Vec<PlayerAction>>,
}

/// One player action.
#[derive(Clone, Debug, PartialEq)]
pub struct PlayerAction {
    pub seat: u8,
    pub action: String,
    pub amount: Option<usize>,
    pub pot_after: Option<usize>,
}

/// The board, street by street.
#[derive(Clone, Debug, Default, PartialEq)]
pub struct BoardCards {
    pub flop: Option<Vec<String>>,
    pub turn: Option<String>,
    pub river: Option<String>,
}

/// What a player won or lost.
#[derive(Clone, Debug, PartialEq)]
pub struct HandResult {
    pub seat: u8,
    pub name: String,
    pub winnings: isize,
    pub hand: Option<String>,
    pub best_hand: Option<Vec<String>>,
}

impl PokerHandHistory {
    /// An empty history for the hand `hand_id`: the current format version,
    /// a six-handed table with no name, no game, no players, no actions.
    pub fn new(hand_id: String) -> (h: PokerHandHistory)
        ensures
            h.version@ == phh_version(),
            h.hand_id == hand_id,
            h.timestamp is None,
            h.table.name@ == Seq::<char>::empty() && h.table.max_players == 6 && h.table.id is None,
            h.game.variant@ == Seq::<char>::empty(),
            h.game.blinds.small_blind == 0 && h.game.blinds.big_blind == 0 && h.game.blinds.ante is None,
            h.players@.len() == 0,
            h.button == 0,
            h.actions.preflop is None && h.actions.flop is None && h.actions.turn is None && h.actions.river is None,
            h.board is None && h.results is None && h.metadata is None,
    {
        PokerHandHistory {
            version: String::from_str("1.0"),
            hand_id,
            timestamp: None,
            table: TableInfo { name: String::new(), max_players: 6, id: None },
            game: GameInfo {
                variant: String::new(),
                blinds: BlindInfo { small_blind: 0, big_blind: 0, ante: None },
            },
            players: Vec::new(),
            button: 0,
            actions: HandActions { preflop: None, flop: None, turn: None, river: None },
            board: None,
            results: None,
            metadata: None,
        }
    }
}

/// The street a log entry falls in.
#[derive(Clone, Copy, Debug, PartialEq, Eq, Structural)]
pub enum Street {
    Preflop,
    Flop,
    Turn,
    River,
}

/// The street in play after the first `n` entries of the log: the last
/// street dealt, or before the flop.
pub open spec fn street_after(log: Seq<TableAction>, n: nat) -> Street
    decreases n,
{
    if n == 0 {
        Street::Preflop
    } else {
        match log[n - 1] {
            TableAction::DealtFlop(_) => Street::Flop,
            TableAction::DealtTurn(_) => Street::Turn,
            TableAction::DealtRiver(_) => Street::River,
            _ => street_after(log, (n - 1) as nat),
        }
    }
}

/// The name, seat and amount of a player action the history records, or
/// `None` for any other entry.
pub open spec fn recorded(a: TableAction) -> Option<(Seq<char>, u8, Option<usize>)> {
    match a {
        TableAction::Fold(seat) => Some(("fold"@, seat, None)),
        TableAction::Call(seat, amount) => Some(("call"@, seat, Some(amount))),
        TableAction::Raise(seat, amount) => Some(("raise"@, seat, Some(amount))),
        TableAction::Bet(seat, amount) => Some(("bet"@, seat, Some(amount))),
        TableAction::Check(seat) => Some(("check"@, seat, None)),
        TableAction::AllIn(seat, amount) => Some(("all-in"@, seat, Some(amount))),
        _ => None,
    }
}

/// Whether `p` records the log entry `a`.
pub open spec fn records(p: PlayerAction, a: TableAction) -> bool {
    match recorded(a) {
        Some((name, seat, amount)) => p.action@ == name && p.seat == seat && p.amount == amount && p.pot_after is None,
        None => false,
    }
}

/// The indices among the first `n` entries of the log of the player
/// actions the history records on `street`, in log order.
pub open spec fn street_entries(log: Seq<TableAction>, street: Street, n: nat) -> Seq<int>
    decreases n,
{
    if n == 0 {
        Seq::empty()
    } else {
        let prev = street_entries(log, street, (n - 1) as nat);
        if recorded(log[n - 1]) is Some && street_after(log, (n - 1) as nat) == street {
            prev.push(n - 1)
        } else {
            prev
        }
    }
}

/// The street a log entry deals, if it deals one: the flop, the turn or the
/// river.
pub open spec fn deals(a: TableAction) -> Option<Street> {
    match a {
        TableAction::DealtFlop(_) => Some(Street::Flop),
        TableAction::DealtTurn(_) => Some(Street::Turn),
        TableAction::DealtRiver(_) => Some(Street::River),
        _ => None,
    }
}

/// Whether `street` is in play at entry `i` of the log: the last street
/// dealt before it is `street`, or no street was dealt and `street` is the
/// one before the flop.
pub open spec fn in_play_at(log: Seq<TableAction>, i: int, street: Street) -> bool {
    ||| street == Street::Preflop && forall|k: int| 0 <= k < i ==> deals(#[trigger] log[k]) is None
    ||| exists|j: int|
        0 <= j < i && deals(log[j]) == Some(street) && forall|k: int| j < k < i ==> deals(#[trigger] log[k]) is None
}

/// The street in play after the first `i` entries is the last one dealt.
pub proof fn lemma_street_after_in_play(log: Seq<TableAction>, i: int, street: Street)
    requires
        0 <= i <= log.len(),
        in_play_at(log, i, street),
    ensures
        street_after(log, i as nat) == street,
    decreases i,
{
    if i > 0 {
        let a = log[i - 1];
        if deals(a) is Some {
            if street == Street::Preflop && forall|k: int| 0 <= k < i ==> deals(#[trigger] log[k]) is None {
                assert(deals(log[i - 1]) is None);
            } else {
                let j = choose|j: int|
                    0 <= j < i && deals(log[j]) == Some(street) && forall|k: int| j < k < i ==> deals(#[trigger] log[k]) is None;
                if j < i - 1 {
                    assert(deals(log[i - 1]) is None);
                }
            }
        } else {
            if street == Street::Preflop && forall|k: int| 0 <= k < i ==> deals(#[trigger] log[k]) is None {
                assert forall|k: int| 0 <= k < i - 1 implies deals(#[trigger] log[k]) is None by {}
            } else {
                let j = choose|j: int|
                    0 <= j < i && deals(log[j]) == Some(street) && forall|k: int| j < k < i ==> deals(#[trigger] log[k]) is None;
                assert(j != i - 1);
                assert(in_play_at(log, i - 1, street));
            }
            lemma_street_after_in_play(log, i - 1, street);
        }
    }
}

/// An entry is among the indices of a street exactly when the history
/// records it and that street was in play when it came.
pub proof fn lemma_street_entries_contains(log: Seq<TableAction>, street: Street, n: nat, i: int)
    requires
        n <= log.len(),
    ensures
        street_entries(log, street, n).contains(i) <==> 0 <= i < n && recorded(log[i]) is Some && street_after(log, i as nat)
            == street,
    decreases n,
{
    if n > 0 {
        lemma_street_entries_contains(log, street, (n - 1) as nat, i);
        let prev = street_entries(log, street, (n - 1) as nat);
        if recorded(log[n - 1]) is Some && street_after(log, (n - 1) as nat) == street {
            let cur = prev.push(n - 1);
            assert(street_entries(log, street, n) == cur);
            if cur.contains(i) && i != n - 1 {
                let k = choose|k: int| 0 <= k < cur.len() && cur[k] == i;
                assert(k < prev.len());
                assert(prev[k] == i);
            }
            if prev.contains(i) {
                let k = choose|k: int| 0 <= k < prev.len() && prev[k] == i;
                assert(cur[k] == i);
            }
            if i == n - 1 {
                assert(cur[prev.len() as int] == i);
            }
        }
    }
}

/// The list of `street` in the history's actions.
pub open spec fn street_list(h: HandActions, street: Street) -> Option<Vec<PlayerAction>> {
    match street {
        Street::Preflop => h.preflop,
        Street::Flop => h.flop,
        Street::Turn => h.turn,
        Street::River => h.river,
    }
}

/// Whether the log entry `i` is filed under `street` in `h` and under no
/// other: the list of `street` holds its record at the place of `i` among
/// that street's entries, and no other street's entries hold `i`.
pub open spec fn filed_under(h: HandActions, log: Seq<TableAction>, i: int, street: Street) -> bool {
    &&& street_list(h, street) matches Some(v) && exists|k: int|
        0 <= k < v@.len() && street_entries(log, street, log.len())[k] == i && records(#[trigger] v@[k], log[i])
    &&& forall|other: Street| other != street ==> !(#[trigger] street_entries(log, other, log.len())).contains(i)
}

/// Whether `v` records, in order, the player actions of `street` in the
/// log, `None` standing for a street without any.
pub open spec fn street_recorded(v: Option<Vec<PlayerAction>>, log: Seq<TableAction>, street: Street) -> bool {
    let idx = street_entries(log, street, log.len());
    match v {
        None => idx.len() == 0,
        Some(acts) => idx.len() > 0 && acts@.len() == idx.len() && forall|k: int|
            0 <= k < idx.len() ==> records(#[trigger] acts@[k], log[idx[k]]),
    }
}

/// The history's record of one log entry.
fn record_of(a: &TableAction) -> (r: Option<PlayerAction>)
    ensures
        recorded(*a) is None <==> r is None,
        r matches Some(p) ==> records(p, *a),
{
    match a {
        TableAction::Fold(seat) => Some(
            PlayerAction { seat: *seat, action: String::from_str("fold"), amount: None, pot_after: None },
        ),
        TableAction::Call(seat, amount) => Some(
            PlayerAction { seat: *seat, action: String::from_str("call"), amount: Some(*amount), pot_after: None },
        ),
        TableAction::Raise(seat, amount) => Some(
            PlayerAction { seat: *seat, action: String::from_str("raise"), amount: Some(*amount), pot_after: None },
        ),
        TableAction::Bet(seat, amount) => Some(
            PlayerAction { seat: *seat, action: String::from_str("bet"), amount: Some(*amount), pot_after: None },
        ),
        TableAction::Check(seat) => Some(
            PlayerAction { seat: *seat, action: String::from_str("check"), amount: None, pot_after: None },
        ),
        TableAction::AllIn(seat, amount) => Some(
            PlayerAction {
                seat: *seat,
                action: String::from_str("all-in"),
                amount: Some(*amount),
                pot_after: None,
            },
        ),
        _ => None,
    }
}

/// Appends `action` to the list of `street`.
pub fn push_action(
    preflop: &mut Vec<PlayerAction>,
    flop: &mut Vec<PlayerAction>,
    turn: &mut Vec<PlayerAction>,
    river: &mut Vec<PlayerAction>,
    street: Street,
    action: PlayerAction,
)
    ensures
        final(preflop)@ == (if street == Street::Preflop {
            old(preflop)@.push(action)
        } else {
            old(preflop)@
        }),
        final(flop)@ == (if street == Street::Flop {
            old(flop)@.push(action)
        } else {
            old(flop)@
        }),
        final(turn)@ == (if street == Street::Turn {
            old(turn)@.push(action)
        } else {
            old(turn)@
        }),
        final(river)@ == (if street == Street::River {
            old(river)@.push(action)
        } else {
            old(river)@
        }),
{
    match street {
        Street::Preflop => preflop.push(action),
        Street::Flop => flop.push(action),
        Street::Turn => turn.push(action),
        Street::River => river.push(action),
    }
}

/// Whether `v` records, in order, the player actions of `street` among
/// the first `n` entries of the log.
pub open spec fn prefix_recorded(v: Seq<PlayerAction>, log: Seq<TableAction>, street: Street, n: nat) -> bool {
    let idx = street_entries(log, street, n);
    v.len() == idx.len() && forall|k: int| 0 <= k < idx.len() ==> records(#[trigger] v[k], log[idx[k]])
}

/// `None` for an empty list.
fn some_if_any(v: Vec<PlayerAction>) -> (r: Option<Vec<PlayerAction>>)
    ensures
        v@.len() == 0 ==> r is None,
        v@.len() > 0 ==> r == Some(v),
{
    if v.len() == 0 {
        None
    } else {
        Some(v)
    }
}

/// Reads the player actions off the log, street by street: the street
/// changes at each flop, turn and river dealt, and each fold, call, raise,
/// bet, check and all-in is recorded on the street it falls in.
pub fn extract_actions_from_log(log: &Vec<TableAction>) -> (h: HandActions)
    ensures
        street_recorded(h.preflop, log@, Street::Preflop),
        street_recorded(h.flop, log@, Street::Flop),
        street_recorded(h.turn, log@, Street::Turn),
        street_recorded(h.river, log@, Street::River),
        forall|i: int, street: Street|
            0 <= i < log@.len() && recorded(log@[i]) is Some && #[trigger] in_play_at(log@, i, street) ==> filed_under(
                h,
                log@,
                i,
                street,
            ),
{
    let mut preflop: Vec<PlayerAction> = Vec::new();
    let mut flop: Vec<PlayerAction> = Vec::new();
    let mut turn: Vec<PlayerAction> = Vec::new();
    let mut river: Vec<PlayerAction> = Vec::new();
    let mut current = Street::Preflop;
    let mut i: usize = 0;
    while i < log.len()
        invariant
            i <= log@.len(),
            current == street_after(log@, i as nat),
            prefix_recorded(preflop@, log@, Street::Preflop, i as nat),
            prefix_recorded(flop@, log@, Street::Flop, i as nat),
            prefix_recorded(turn@, log@, Street::Turn, i as nat),
            prefix_recorded(river@, log@, Street::River, i as nat),
        decreases log@.len() - i,
    {
        let a = &log[i];
        match a {
            TableAction::DealtFlop(_) => {
                current = Street::Flop;
            },
            TableAction::DealtTurn(_) => {
                current = Street::Turn;
            },
            TableAction::DealtRiver(_) => {
                current = Street::River;
            },
            _ => {
                match record_of(a) {
                    Some(p) => {
                        let ghost (pf, fl, tu, ri) = (preflop@, flop@, turn@, river@);
                        push_action(&mut preflop, &mut flop, &mut turn, &mut river, current, p);
                        proof {
                            assert forall|k: int| 0 <= k < preflop@.len() - 1 implies preflop@[k] == pf[k] by {}
                        }
                    },
                    None => {},
                }
            },
        }
        i = i + 1;
    }
    let h = HandActions {
        preflop: some_if_any(preflop),
        flop: some_if_any(flop),
        turn: some_if_any(turn),
        river: some_if_any(river),
    };
    proof {
        let n = log@.len();
        assert forall|i: int, street: Street|
            0 <= i < n && recorded(log@[i]) is Some && #[trigger] in_play_at(log@, i, street) implies filed_under(
            h,
            log@,
            i,
            street,
        ) by {
            lemma_street_after_in_play(log@, i, street);
            lemma_street_entries_contains(log@, street, n, i);
            let idx = street_entries(log@, street, n);
            assert(idx.contains(i));
            let k = choose|k: int| 0 <= k < idx.len() && idx[k] == i;
            assert(street_recorded(street_list(h, street), log@, street));
            let v = street_list(h, street)->Some_0;
            assert(records(v@[k], log@[i]));
            assert forall|other: Street| other != street implies !(#[trigger] street_entries(log@, other, n)).contains(i) by {
                lemma_street_entries_contains(log@, other, n, i);
            }
        }
    }
    h
}

/// The text of each card.
fn card_texts(cards: &Vec<Card>, from: usize, to: usize) -> (v: Vec<String>)
    requires
        from <= to <= cards@.len(),
    ensures
        v@.len() == to - from,
        forall|k: int| 0 <= k < v@.len() ==> (#[trigger] v@[k])@ == card_text(cards@[from + k]),
{
    let mut v: Vec<String> = Vec::new();
    let mut i: usize = from;
    while i < to
        invariant
            from <= i <= to <= cards@.len(),
            v@.len() == i - from,
            forall|k: int| 0 <= k < v@.len() ==> (#[trigger] v@[k])@ == card_text(cards@[from + k]),
        decreases to - i,
    {
        v.push(cards[i].to_string());
        i = i + 1;
    }
    v
}

/// The current time as an RFC 3339 timestamp, from `chrono`'s
/// `Utc::now().to_rfc3339()`. Nothing is claimed of the text: it is the
/// time when called.
#[verifier::external_body]
fn now_rfc3339() -> (s: String) {
    chrono::Utc::now().to_rfc3339()
}

/// The text of a table id.
fn id_string(id: u128) -> (s: String)
    ensures
        s@ == id_text(id),
{
    let mut s = String::new();
    crate::text::push_id(&mut s, id);
    s
}

/// Whether `p` is what the history says of the seat `seat` of the table.
pub open spec fn player_recorded(p: PlayerInfo, seat: int, x: Seat) -> bool {
    &&& p.seat == (if seat <= 255 {
        seat
    } else {
        0
    })
    &&& p.name@ == x.player.handle@
    &&& p.stack == x.player.chips
    &&& p.player_id matches Some(t) && t@ == id_text(x.player.id)
    &&& (x.cards.dealt@.len() == 0 ==> p.hole_cards is None)
    &&& (x.cards.dealt@.len() > 0 ==> (p.hole_cards matches Some(h) && h@.len() == x.cards.dealt@.len()
        && forall|k: int| 0 <= k < h@.len() ==> (#[trigger] h@[k])@ == card_text(x.cards.dealt@[k])))
}

/// Whether `b` gives the board `board` street by street: the flop as the
/// texts of the first three cards, the turn and the river as the texts of
/// the fourth and the fifth, each present exactly when the card is out.
pub open spec fn board_recorded(b: BoardCards, board: Seq<Card>) -> bool {
    &&& (board.len() >= 3 <==> b.flop is Some)
    &&& b.flop matches Some(f) ==> f@.len() == 3 && forall|k: int| 0 <= k < 3 ==> (#[trigger] f@[k])@ == card_text(board[k])
    &&& (board.len() >= 4 <==> b.turn is Some)
    &&& b.turn matches Some(t) ==> t@ == card_text(board[3])
    &&& (board.len() >= 5 <==> b.river is Some)
    &&& b.river matches Some(t) ==> t@ == card_text(board[4])
}

/// Whether `h` is the history of the hand at `table`: the table's id as
/// the hand's, a timestamp, the table's name, size and id, the blinds (and
/// the ante when there is one), every seat with its player, stack, id and
/// hole cards, the button, the player actions read off the log street by
/// street, a board exactly when cards are out, and no results yet.
pub open spec fn history_of(table: Table, h: PokerHandHistory) -> bool {
    &&& h.version@ == phh_version()
    &&& h.hand_id@ == id_text(table.id)
    &&& h.timestamp is Some
    &&& h.table.name@ == table.name@
    &&& h.table.max_players == (if table.seats@.len() <= 255 { table.seats@.len() } else { 0 })
    &&& h.table.id matches Some(t) && t@ == id_text(table.id)
    &&& h.game.variant@ == "NoLimitHoldem"@
    &&& h.game.blinds.small_blind == table.forced.small_blind
    &&& h.game.blinds.big_blind == table.forced.big_blind
    &&& h.game.blinds.ante == (if table.forced.ante > 0 { Some(table.forced.ante) } else { None })
    &&& h.players@.len() == table.seats@.len()
    &&& forall|i: int| 0 <= i < h.players@.len() ==> player_recorded(#[trigger] h.players@[i], i, table.seats@[i])
    &&& h.button == table.button
    &&& street_recorded(h.actions.preflop, table.event_log@, Street::Preflop)
    &&& street_recorded(h.actions.flop, table.event_log@, Street::Flop)
    &&& street_recorded(h.actions.turn, table.event_log@, Street::Turn)
    &&& street_recorded(h.actions.river, table.event_log@, Street::River)
    &&& (table.board@.len() == 0 <==> h.board is None)
    &&& h.board matches Some(b) ==> board_recorded(b, table.board@)
    &&& h.results is None
    &&& h.metadata is None
}

impl PokerHandHistory {
    /// The history of the hand at `table`: the table's id as the hand's,
    /// the time now, the table's name, size and id, the blinds (and the
    /// ante when there is one), every seat with its player, stack, id and
    /// hole cards, the button, the board street by street and the player
    /// actions read off the log; no results yet.
    pub fn try_from(table: &Table) -> (r: Result<PokerHandHistory, PKError>)
        ensures
            r matches Ok(h) && history_of(*table, h),
    {
        Ok(PokerHandHistory::at_time(table, now_rfc3339()))
    }

    /// The history of the hand at `table` as at the time `timestamp`.
    pub fn at_time(table: &Table, timestamp: String) -> (h: PokerHandHistory)
        ensures
            history_of(*table, h),
            h.timestamp == Some(timestamp),
    {
        let mut players: Vec<PlayerInfo> = Vec::new();
        let n = table.seats.0.len();
        let mut i: usize = 0;
        while i < n
            invariant
                i <= n == table.seats@.len(),
                players@.len() == i,
                forall|k: int| 0 <= k < i ==> player_recorded(#[trigger] players@[k], k, table.seats@[k]),
            decreases n - i,
        {
            let seat = &table.seats.0[i];
            let dealt = &seat.cards.dealt;
            let hole_cards = if dealt.len() == 0 {
                None
            } else {
                Some(card_texts(dealt, 0, dealt.len()))
            };
            players.push(
                PlayerInfo {
                    seat: if i <= 255 {
                        i as u8
                    } else {
                        0
                    },
                    name: seat.player.handle.clone(),
                    stack: seat.player.chips,
                    hole_cards,
                    player_id: Some(id_string(seat.player.id)),
                },
            );
            i = i + 1;
        }
        let board = if table.board.len() == 0 {
            None
        } else {
            let b = &table.board;
            let flop = if b.len() >= 3 {
                Some(card_texts(b, 0, 3))
            } else {
                None
            };
            let turn = if b.len() >= 4 {
                Some(b[3].to_string())
            } else {
                None
            };
            let river = if b.len() >= 5 {
                Some(b[4].to_string())
            } else {
                None
            };
            Some(BoardCards { flop, turn, river })
        };
        let ante = if table.forced.ante > 0 {
            Some(table.forced.ante)
        } else {
            None
        };
        PokerHandHistory {
            version: String::from_str("1.0"),
            hand_id: id_string(table.id),
            timestamp: Some(timestamp),
            table: TableInfo {
                name: table.name.clone(),
                max_players: table.seats.size(),
                id: Some(id_string(table.id)),
            },
            game: GameInfo {
                variant: String::from_str("NoLimitHoldem"),
                blinds: BlindInfo {
                    small_blind: table.forced.small_blind,
                    big_blind: table.forced.big_blind,
                    ante,
                },
            },
            players,
            button: table.button,
            actions: extract_actions_from_log(&table.event_log),
            board,
            results: None,
            metadata: None,
        }
    }
}

/// A table's hand history.
pub trait HandHistoryExt {
    /// Whether `h` is the history of the hand at the table.
    spec fn is_history_of(&self, h: PokerHandHistory) -> bool;

    /// The history of the hand at the table.
    fn to_hand_history(&self) -> (r: Result<PokerHandHistory, PKError>)
        ensures
            r matches Ok(h) && self.is_history_of(h),
    ;
}

impl HandHistoryExt for Table {
    open spec fn is_history_of(&self, h: PokerHandHistory) -> bool {
        history_of(*self, h)
    }

    fn to_hand_history(&self) -> (r: Result<PokerHandHistory, PKError>) {
        PokerHandHistory::try_from(self)
    }
}

} // verus!
