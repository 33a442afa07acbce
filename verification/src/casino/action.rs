//! Action vocabularies: what a player chooses at their turn, and what the
//! table records in its event log.
use vstd::prelude::*;

use crate::card::{Bard, Card};
use crate::card::{bard_cards, card_text, cards_text};
use crate::casino::state::{state_text, PlayerState};
use crate::text::{decimal, id_text, push_decimal, push_id};

verus! {

/// A player's chosen action at their turn.
#[derive(Clone, Copy, Debug, PartialEq, Eq, Structural)]
pub enum PlayerAction {
    /// Give up the hand.
    Fold,
    /// Pass without betting; only legal when no bet faces the player.
    Check,
    /// Match the current bet.
    Call,
    /// Open the betting with this many chips.
    Bet(usize),
    /// Raise the bet to this many chips in total.
    Raise(usize),
    /// Commit every remaining chip.
    AllIn,
}

/// An entry in a table's event log.
#[derive(Clone, Copy, Debug, PartialEq, Eq, Structural, Hash)]
pub enum TableAction {
    Pause,
    TableOpen(u128),
    PlayerSeated(u8, u128),
    NewHand,
    ShuffleDeck,
    SetButton(u8),
    MoveButton(u8),
    ForcedBets,
    ForcedBet(u8, usize),
    ForcedBetSmallBlind(u8, usize),
    ForcedBetBigBlind(u8, usize),
    BetAnteForced(u8, usize),
    /// A stud-family bring-in post.
    StudBringInPost(u8, usize),
    DealingXCards(u8),
    Dealt(u8, Bard),
    DealtFlop(Bard),
    DealtTurn(Bard),
    DealtRiver(Bard),
    DealtPlayers,
    ForceDealt(u8, Bard),
    /// A seat was dealt a card nobody can read yet; it names the slot only.
    SealedDealt(u8, u8),
    /// A sealed card was opened: the seat, its slot and the card.
    Revealed(u8, u8, Card),
    BringItIn(usize),
    ActionTo(u8),
    Check(u8),
    Bet(u8, usize),
    Call(u8, usize),
    Raise(u8, usize),
    AllIn(u8, usize),
    Fold(u8),
    PotSize(usize),
    SplitPots,
    MainPot(usize),
    SidePot(usize),
    /// A pot split between a number of winners: (winners, pot size).
    SplitPot(u8, usize),
    MuckCards(Bard),
    MuckPlayerCards(u8, Bard),
    TakePlayerCards(u8, Bard),
    TakeBoardCards(Bard),
    ClosesTheAction(u8),
    CloseItOut(usize),
    EndHand,
    /// The hand was unwound and every committed chip returned.
    HandAborted(usize),
    ResetTable,
    Showdown(u8),
    PlayerMucksCards(u8),
    AllFoldedTo(u8),
    PlayerWinsSidePot(u8, usize),
    PlayerWinsMainPot(u8, usize),
    PlayerLosesSidePot(u8, usize),
    PlayerLosesMainPot(u8, usize),
    /// (seat, player id, hand, amount won, pot size)
    PlayerWins(u8, u128, Bard, usize, usize),
    /// (seat, player id, hand, amount lost)
    PlayerLoses(u8, u128, Bard, usize),
    InvalidAction,
    InvalidPlayerAction(u8, PlayerState),
    NotEnoughCards,
    TooManyCards,
    InvalidSeatNumber,
    DeckPassesAudit,
    /// Chip conservation failed at the end of a hand: (expected, actual).
    ChipAuditFailed(usize, usize),
}

impl TableAction {
    /// The amount an entry carries, for the entries that carry one.
    pub open spec fn amount_of(self) -> Option<usize> {
        match self {
            TableAction::ForcedBet(_, a) => Some(a),
            TableAction::ForcedBetSmallBlind(_, a) => Some(a),
            TableAction::ForcedBetBigBlind(_, a) => Some(a),
            TableAction::BetAnteForced(_, a) => Some(a),
            TableAction::StudBringInPost(_, a) => Some(a),
            TableAction::BringItIn(a) => Some(a),
            TableAction::Bet(_, a) => Some(a),
            TableAction::Call(_, a) => Some(a),
            TableAction::Raise(_, a) => Some(a),
            TableAction::AllIn(_, a) => Some(a),
            TableAction::CloseItOut(a) => Some(a),
            TableAction::PotSize(a) => Some(a),
            TableAction::MainPot(a) => Some(a),
            TableAction::SidePot(a) => Some(a),
            TableAction::PlayerWins(_, _, _, a, _) => Some(a),
            TableAction::PlayerLoses(_, _, _, a) => Some(a),
            TableAction::PlayerWinsSidePot(_, a) => Some(a),
            TableAction::PlayerWinsMainPot(_, a) => Some(a),
            TableAction::PlayerLosesSidePot(_, a) => Some(a),
            TableAction::PlayerLosesMainPot(_, a) => Some(a),
            _ => None,
        }
    }

    /// The seat an entry concerns, for the entries that name one.
    pub open spec fn seat_of(self) -> Option<u8> {
        match self {
            TableAction::PlayerSeated(s, _) => Some(s),
            TableAction::SetButton(s) => Some(s),
            TableAction::MoveButton(s) => Some(s),
            TableAction::ForcedBetSmallBlind(s, _) => Some(s),
            TableAction::ForcedBetBigBlind(s, _) => Some(s),
            TableAction::BetAnteForced(s, _) => Some(s),
            TableAction::StudBringInPost(s, _) => Some(s),
            TableAction::Dealt(s, _) => Some(s),
            TableAction::ForceDealt(s, _) => Some(s),
            TableAction::SealedDealt(s, _) => Some(s),
            TableAction::Revealed(s, _, _) => Some(s),
            TableAction::ActionTo(s) => Some(s),
            TableAction::Check(s) => Some(s),
            TableAction::Bet(s, _) => Some(s),
            TableAction::Call(s, _) => Some(s),
            TableAction::Raise(s, _) => Some(s),
            TableAction::AllIn(s, _) => Some(s),
            TableAction::Fold(s) => Some(s),
            TableAction::AllFoldedTo(s) => Some(s),
            TableAction::PlayerWins(s, _, _, _, _) => Some(s),
            TableAction::PlayerLoses(s, _, _, _) => Some(s),
            TableAction::MuckPlayerCards(s, _) => Some(s),
            TableAction::InvalidPlayerAction(s, _) => Some(s),
            TableAction::TakePlayerCards(s, _) => Some(s),
            _ => None,
        }
    }

    /// A win mirrored into the matching loss: same seat, player and hand,
    /// the amount carried across and the pot size dropped. `None` for every
    /// other entry.
    pub fn generate_player_loses(&self) -> (r: Option<TableAction>)
        ensures
            r == (match *self {
                TableAction::PlayerWins(seat, id, hand, amount, _) => Some(
                    TableAction::PlayerLoses(seat, id, hand, amount),
                ),
                _ => None,
            }),
    {
        match *self {
            TableAction::PlayerWins(seat, player_id, hand, amount, _pot_size) => Some(
                TableAction::PlayerLoses(seat, player_id, hand, amount),
            ),
            _ => None,
        }
    }

    pub fn get_amount(&self) -> (r: Option<usize>)
        ensures
            r == self.amount_of(),
    {
        match *self {
            TableAction::ForcedBet(_, amount)
            | TableAction::ForcedBetSmallBlind(_, amount)
            | TableAction::ForcedBetBigBlind(_, amount)
            | TableAction::BetAnteForced(_, amount)
            | TableAction::StudBringInPost(_, amount)
            | TableAction::BringItIn(amount)
            | TableAction::Bet(_, amount)
            | TableAction::Call(_, amount)
            | TableAction::Raise(_, amount)
            | TableAction::AllIn(_, amount)
            | TableAction::CloseItOut(amount)
            | TableAction::PotSize(amount)
            | TableAction::MainPot(amount)
            | TableAction::SidePot(amount)
            | TableAction::PlayerWins(_, _, _, amount, _)
            | TableAction::PlayerLoses(_, _, _, amount)
            | TableAction::PlayerWinsSidePot(_, amount)
            | TableAction::PlayerWinsMainPot(_, amount)
            | TableAction::PlayerLosesSidePot(_, amount)
            | TableAction::PlayerLosesMainPot(_, amount) => Some(amount),
            _ => None,
        }
    }

    /// The seat the entry concerns, if it names one.
    pub fn get_seat(&self) -> (r: Option<u8>)
        ensures
            r == self.seat_of(),
    {
        match *self {
            TableAction::PlayerSeated(seat, _)
            | TableAction::SetButton(seat)
            | TableAction::MoveButton(seat)
            | TableAction::ForcedBetSmallBlind(seat, _)
            | TableAction::ForcedBetBigBlind(seat, _)
            | TableAction::BetAnteForced(seat, _)
            | TableAction::StudBringInPost(seat, _)
            | TableAction::Dealt(seat, _)
            | TableAction::ForceDealt(seat, _)
            | TableAction::SealedDealt(seat, _)
            | TableAction::Revealed(seat, _, _)
            | TableAction::ActionTo(seat)
            | TableAction::Check(seat)
            | TableAction::Bet(seat, _)
            | TableAction::Call(seat, _)
            | TableAction::Raise(seat, _)
            | TableAction::AllIn(seat, _)
            | TableAction::Fold(seat)
            | TableAction::AllFoldedTo(seat)
            | TableAction::PlayerWins(seat, _, _, _, _)
            | TableAction::PlayerLoses(seat, _, _, _)
            | TableAction::MuckPlayerCards(seat, _)
            | TableAction::InvalidPlayerAction(seat, _)
            | TableAction::TakePlayerCards(seat, _) => Some(seat),
            _ => None,
        }
    }

    /// A voluntary action of a player.
    pub fn is_player_action(&self) -> (b: bool)
        ensures
            b == (*self is Bet || *self is Call || *self is Raise || *self is Fold || *self is Check
                || *self is AllIn || *self is ClosesTheAction),
    {
        matches!(
            *self,
            TableAction::Bet(_, _) | TableAction::Call(_, _) | TableAction::Raise(_, _)
                | TableAction::Fold(_) | TableAction::Check(_) | TableAction::AllIn(_, _)
                | TableAction::ClosesTheAction(_)
        )
    }

    /// A result of the hand: a win or a loss of a pot.
    pub fn is_result(&self) -> (b: bool)
        ensures
            b == (*self is PlayerWins || *self is PlayerLoses || *self is PlayerWinsMainPot
                || *self is PlayerWinsSidePot || *self is PlayerLosesMainPot
                || *self is PlayerLosesSidePot),
    {
        matches!(
            *self,
            TableAction::PlayerWins(_, _, _, _, _) | TableAction::PlayerLoses(_, _, _, _)
                | TableAction::PlayerWinsMainPot(_, _) | TableAction::PlayerWinsSidePot(_, _)
                | TableAction::PlayerLosesMainPot(_, _) | TableAction::PlayerLosesSidePot(_, _)
        )
    }
}


/// The text of a player's action.
pub open spec fn player_action_text(a: PlayerAction) -> Seq<char> {
    match a {
        PlayerAction::Fold => "Fold"@,
        PlayerAction::Check => "Check"@,
        PlayerAction::Call => "Call"@,
        PlayerAction::Bet(n) => "Bet("@ + decimal(n as nat) + ")"@,
        PlayerAction::Raise(n) => "Raise("@ + decimal(n as nat) + ")"@,
        PlayerAction::AllIn => "AllIn"@,
    }
}

impl PlayerAction {
    /// The text of the action.
    pub fn to_string(&self) -> (t: String)
        ensures
            t@ == player_action_text(*self),
    {
        let mut t = String::new();
        let s = &mut t;
        match self {
            PlayerAction::Fold => {
                s.append("Fold");
            },
            PlayerAction::Check => {
                s.append("Check");
            },
            PlayerAction::Call => {
                s.append("Call");
            },
            PlayerAction::Bet(n) => {
                s.append("Bet(");
                push_decimal(s, *n);
                s.append(")");
            },
            PlayerAction::Raise(n) => {
                s.append("Raise(");
                push_decimal(s, *n);
                s.append(")");
            },
            PlayerAction::AllIn => {
                s.append("AllIn");
            },
        }
        proof {
            assert(t@ =~= player_action_text(*self));
        }
        t
    }
}

/// The text of a log entry.
pub open spec fn table_action_text(a: TableAction) -> Seq<char> {
    match a {
        TableAction::Pause => "Pause"@,
        TableAction::TableOpen(id) => "Table "@ + id_text(id) + " is now open"@,
        TableAction::PlayerSeated(seat, pid) => "Player "@ + id_text(pid) + " is seated at Seat "@ + decimal(seat as nat),
        TableAction::NewHand => "New Hand"@,
        TableAction::ShuffleDeck => "Shuffle Deck"@,
        TableAction::SetButton(seat) => "Set Button to Seat "@ + decimal(seat as nat),
        TableAction::MoveButton(seat) => "Move Button to Seat "@ + decimal(seat as nat),
        TableAction::ForcedBets => "Forced Bets"@,
        TableAction::ForcedBet(seat, amount) => "Seat "@ + decimal(seat as nat) + " puts in forced bet of "@ + decimal(amount as nat),
        TableAction::ForcedBetSmallBlind(seat, amount) => "Seat "@ + decimal(seat as nat) + " puts in Small Blind of "@ + decimal(amount as nat),
        TableAction::ForcedBetBigBlind(seat, amount) => "Seat "@ + decimal(seat as nat) + " puts in Big Blind of "@ + decimal(amount as nat),
        TableAction::BetAnteForced(seat, amount) => "Seat "@ + decimal(seat as nat) + " Antes "@ + decimal(amount as nat),
        TableAction::StudBringInPost(seat, amount) => "Seat "@ + decimal(seat as nat) + " posts "@ + decimal(amount as nat) + " bring-in"@,
        TableAction::DealingXCards(x) => "Dealing out "@ + decimal(x as nat) + " cards"@,
        TableAction::Dealt(seat, cards) => "Seat "@ + decimal(seat as nat) + " is dealt "@ + cards_text(bard_cards(cards)),
        TableAction::DealtFlop(cards) => "Flop is "@ + cards_text(bard_cards(cards)),
        TableAction::DealtTurn(cards) => "Turn is "@ + cards_text(bard_cards(cards)),
        TableAction::DealtRiver(cards) => "River is "@ + cards_text(bard_cards(cards)),
        TableAction::DealtPlayers => "Dealt Players"@,
        TableAction::ForceDealt(seat, cards) => "Seat "@ + decimal(seat as nat) + " is force-dealt "@ + cards_text(bard_cards(cards)),
        TableAction::SealedDealt(seat, slot) => "Seat "@ + decimal(seat as nat) + " is dealt a sealed card (slot "@ + decimal(slot as nat) + ")"@,
        TableAction::Revealed(seat, slot, card) => "Seat "@ + decimal(seat as nat) + " reveals slot "@ + decimal(slot as nat) + ": "@ + card_text(card),
        TableAction::BringItIn(amount) => "Brings in "@ + decimal(amount as nat),
        TableAction::ActionTo(seat) => "Action to Seat "@ + decimal(seat as nat),
        TableAction::Check(seat) => "Seat "@ + decimal(seat as nat) + " checks"@,
        TableAction::Bet(seat, amount) => "Seat "@ + decimal(seat as nat) + " bets "@ + decimal(amount as nat),
        TableAction::Call(seat, amount) => "Seat "@ + decimal(seat as nat) + " calls "@ + decimal(amount as nat),
        TableAction::Raise(seat, amount) => "Seat "@ + decimal(seat as nat) + " raises to "@ + decimal(amount as nat),
        TableAction::AllIn(seat, amount) => "Seat "@ + decimal(seat as nat) + " goes all in with "@ + decimal(amount as nat),
        TableAction::Fold(seat) => "Seat "@ + decimal(seat as nat) + " folds"@,
        TableAction::PotSize(amount) => "Pot size is "@ + decimal(amount as nat),
        TableAction::SplitPots => "Split Pots"@,
        TableAction::MainPot(amount) => "Main Pot is "@ + decimal(amount as nat),
        TableAction::SidePot(amount) => "Side Pot is "@ + decimal(amount as nat),
        TableAction::SplitPot(number, size) => decimal(size as nat) + " split pot between "@ + decimal(number as nat) + " players"@,
        TableAction::MuckCards(cards) => "Muck cards: "@ + cards_text(bard_cards(cards)),
        TableAction::MuckPlayerCards(seat, cards) => "Muck player "@ + decimal(seat as nat) + "'s cards: "@ + cards_text(bard_cards(cards)),
        TableAction::TakePlayerCards(seat, cards) => "Take player "@ + decimal(seat as nat) + "'s cards: "@ + cards_text(bard_cards(cards)),
        TableAction::TakeBoardCards(cards) => "Take board cards: "@ + cards_text(bard_cards(cards)),
        TableAction::ClosesTheAction(seat) => "Seat "@ + decimal(seat as nat) + " closes the action"@,
        TableAction::CloseItOut(amount) => "Close out the hand with a "@ + decimal(amount as nat) + " pot"@,
        TableAction::EndHand => "End Hand"@,
        TableAction::HandAborted(amount) => "Hand aborted; "@ + decimal(amount as nat) + " returned to players"@,
        TableAction::ResetTable => "Table reset for next hand"@,
        TableAction::Showdown(seat) => decimal(seat as nat) + " seats in showdown"@,
        TableAction::PlayerMucksCards(seat) => "Seat "@ + decimal(seat as nat) + " mucks their cards"@,
        TableAction::AllFoldedTo(seat) => "All folded to Seat "@ + decimal(seat as nat),
        TableAction::PlayerWinsSidePot(seat, amount) => "Seat "@ + decimal(seat as nat) + " wins side pot of "@ + decimal(amount as nat),
        TableAction::PlayerWinsMainPot(seat, amount) => "Seat "@ + decimal(seat as nat) + " wins main pot of "@ + decimal(amount as nat),
        TableAction::PlayerLosesSidePot(seat, amount) => "Seat "@ + decimal(seat as nat) + " loses side pot of "@ + decimal(amount as nat),
        TableAction::PlayerLosesMainPot(seat, amount) => "Seat "@ + decimal(seat as nat) + " loses main pot of "@ + decimal(amount as nat),
        TableAction::PlayerWins(seat, pid, hand, won, pot) => "Seat "@ + decimal(seat as nat) + " (Player "@ + id_text(pid) + ") wins "@ + decimal(won as nat) + " of a pot of "@ + decimal(pot as nat) + " with "@ + cards_text(bard_cards(hand)),
        TableAction::PlayerLoses(seat, pid, hand, lost) => "Seat "@ + decimal(seat as nat) + " (Player "@ + id_text(pid) + ") loses "@ + decimal(lost as nat) + " with "@ + cards_text(bard_cards(hand)),
        TableAction::InvalidAction => "Invalid Action"@,
        TableAction::InvalidPlayerAction(seat, action) => "Invalid action by Seat "@ + decimal(seat as nat) + ": "@ + state_text(action),
        TableAction::NotEnoughCards => "Not enough cards to deal"@,
        TableAction::TooManyCards => "Too many cards to deal"@,
        TableAction::InvalidSeatNumber => "Invalid Seat Number"@,
        TableAction::DeckPassesAudit => "Deck passes audit"@,
        TableAction::ChipAuditFailed(expected, actual) => "Chip audit failed: expected "@ + decimal(expected as nat) + " chips, found "@ + decimal(actual as nat),
    }
}

/// The commentary on a log entry, naming the player `name` where the entry
/// concerns one: the entries a reader follows in a hand read as sentences,
/// every other entry as its text.
pub open spec fn commentary_text(a: TableAction, name: Seq<char>) -> Seq<char> {
    match a {
            TableAction::ForcedBetSmallBlind(_, amount) => name + " posts "@ + decimal(amount as nat) + " small blind"@,
            TableAction::ForcedBetBigBlind(_, amount) => name + " posts "@ + decimal(amount as nat) + " big blind"@,
            TableAction::BringItIn(amount) => "Brings in "@ + decimal(amount as nat),
            TableAction::Bet(_, amount) => name + " bets "@ + decimal(amount as nat),
            TableAction::Call(_, amount) => name + " calls "@ + decimal(amount as nat),
            TableAction::Raise(_, amount) => name + " raises to "@ + decimal(amount as nat),
            TableAction::AllIn(_, _) => name + " goes all in."@,
            TableAction::Fold(_) => name + " folds"@,
            TableAction::Check(_) => name + " checks"@,
            TableAction::PotSize(amount) => decimal(amount as nat) + " pots size"@,
            TableAction::MainPot(amount) => "Main pot "@ + decimal(amount as nat),
            TableAction::SidePot(amount) => "Side pot "@ + decimal(amount as nat),
            TableAction::SplitPot(number, size) => decimal(size as nat) + " split pot between "@ + decimal(number as nat) + " players"@,
            TableAction::Dealt(_, cards) => name + " dealt "@ + cards_text(bard_cards(cards)),
            TableAction::SealedDealt(_, slot) => name + " dealt a sealed card (slot "@ + decimal(slot as nat) + ")"@,
            TableAction::Revealed(_, slot, card) => name + " reveals slot "@ + decimal(slot as nat) + ": "@ + card_text(card),
            TableAction::DealtFlop(cards) => "Flop is "@ + cards_text(bard_cards(cards)),
            TableAction::DealtTurn(cards) => "Turn is "@ + cards_text(bard_cards(cards)),
            TableAction::DealtRiver(cards) => "River is "@ + cards_text(bard_cards(cards)),
            TableAction::EndHand => "Hand over."@,
            TableAction::ResetTable => "Table reset for next hand."@,
            TableAction::PlayerMucksCards(_) => name + " mucks their cards."@,
            TableAction::AllFoldedTo(_) => "Everyone folds to "@ + name + "."@,
            TableAction::PlayerWinsSidePot(seat, amount) => name + " (Seat "@ + decimal(seat as nat) + ") wins side pot of "@ + decimal(amount as nat),
            TableAction::PlayerWinsMainPot(seat, amount) => name + " (Seat "@ + decimal(seat as nat) + ") wins main pot of "@ + decimal(amount as nat),
            TableAction::PlayerLosesSidePot(seat, amount) => name + " (Seat "@ + decimal(seat as nat) + ") loses side pot of "@ + decimal(amount as nat),
            TableAction::PlayerLosesMainPot(seat, amount) => name + " (Seat "@ + decimal(seat as nat) + ") loses main pot of "@ + decimal(amount as nat),
            TableAction::PlayerWins(seat, _, hand, won, pot) => name + " (Seat "@ + decimal(seat as nat) + ") wins "@ + decimal(won as nat) + " of a pot of "@ + decimal(pot as nat) + " with "@ + cards_text(bard_cards(hand)),
            TableAction::PlayerLoses(seat, _, hand, lost) => name + " (Seat "@ + decimal(seat as nat) + ") loses "@ + decimal(lost as nat) + " with "@ + cards_text(bard_cards(hand)),
            _ => table_action_text(a),
    }
}

impl TableAction {
    /// Appends the text of the entry.
    /// Appends the text of the entry.
    pub fn push_text(&self, s: &mut String)
        ensures
            final(s)@ == old(s)@ + table_action_text(*self),
    {
        if self.is_setup_entry() {
            self.push_setup_text(s);
        } else {
            self.push_play_text(s);
        }
    }

    /// Whether the entry belongs to setting up and dealing a hand, before
    /// any betting decision.
    pub open spec fn spec_is_setup_entry(&self) -> bool {
        match self {
            TableAction::Pause | TableAction::TableOpen(..) | TableAction::PlayerSeated(..)
            | TableAction::NewHand | TableAction::ShuffleDeck | TableAction::SetButton(..)
            | TableAction::MoveButton(..) | TableAction::ForcedBets | TableAction::ForcedBet(..)
            | TableAction::ForcedBetSmallBlind(..) | TableAction::ForcedBetBigBlind(..)
            | TableAction::BetAnteForced(..) | TableAction::StudBringInPost(..)
            | TableAction::DealingXCards(..) | TableAction::Dealt(..) | TableAction::DealtFlop(..)
            | TableAction::DealtTurn(..) | TableAction::DealtRiver(..) | TableAction::DealtPlayers
            | TableAction::ForceDealt(..) | TableAction::SealedDealt(..) | TableAction::Revealed(..)
            | TableAction::BringItIn(..) => true,
            _ => false,
        }
    }

    /// Whether the entry belongs to setting up and dealing a hand.
    #[verifier::when_used_as_spec(spec_is_setup_entry)]
    pub fn is_setup_entry(&self) -> (b: bool)
        ensures
            b == self.spec_is_setup_entry(),
    {
        match self {
            TableAction::Pause | TableAction::TableOpen(..) | TableAction::PlayerSeated(..)
            | TableAction::NewHand | TableAction::ShuffleDeck | TableAction::SetButton(..)
            | TableAction::MoveButton(..) | TableAction::ForcedBets | TableAction::ForcedBet(..)
            | TableAction::ForcedBetSmallBlind(..) | TableAction::ForcedBetBigBlind(..)
            | TableAction::BetAnteForced(..) | TableAction::StudBringInPost(..)
            | TableAction::DealingXCards(..) | TableAction::Dealt(..) | TableAction::DealtFlop(..)
            | TableAction::DealtTurn(..) | TableAction::DealtRiver(..) | TableAction::DealtPlayers
            | TableAction::ForceDealt(..) | TableAction::SealedDealt(..) | TableAction::Revealed(..)
            | TableAction::BringItIn(..) => true,
            _ => false,
        }
    }

    #[verifier::rlimit(100)]
    fn push_setup_text(&self, s: &mut String)
        requires
            self.spec_is_setup_entry(),
        ensures
            final(s)@ == old(s)@ + table_action_text(*self),
    {
        match self {
            TableAction::Pause => {
                s.append("Pause");
            },
            TableAction::TableOpen(id) => {
                s.append("Table ");
                push_id(s, *id);
                s.append(" is now open");
            },
            TableAction::PlayerSeated(seat, pid) => {
                s.append("Player ");
                push_id(s, *pid);
                s.append(" is seated at Seat ");
                push_decimal(s, *seat as usize);
            },
            TableAction::NewHand => {
                s.append("New Hand");
            },
            TableAction::ShuffleDeck => {
                s.append("Shuffle Deck");
            },
            TableAction::SetButton(seat) => {
                s.append("Set Button to Seat ");
                push_decimal(s, *seat as usize);
            },
            TableAction::MoveButton(seat) => {
                s.append("Move Button to Seat ");
                push_decimal(s, *seat as usize);
            },
            TableAction::ForcedBets => {
                s.append("Forced Bets");
            },
            TableAction::ForcedBet(seat, amount) => {
                s.append("Seat ");
                push_decimal(s, *seat as usize);
                s.append(" puts in forced bet of ");
                push_decimal(s, *amount as usize);
            },
            TableAction::ForcedBetSmallBlind(seat, amount) => {
                s.append("Seat ");
                push_decimal(s, *seat as usize);
                s.append(" puts in Small Blind of ");
                push_decimal(s, *amount as usize);
            },
            TableAction::ForcedBetBigBlind(seat, amount) => {
                s.append("Seat ");
                push_decimal(s, *seat as usize);
                s.append(" puts in Big Blind of ");
                push_decimal(s, *amount as usize);
            },
            TableAction::BetAnteForced(seat, amount) => {
                s.append("Seat ");
                push_decimal(s, *seat as usize);
                s.append(" Antes ");
                push_decimal(s, *amount as usize);
            },
            TableAction::StudBringInPost(seat, amount) => {
                s.append("Seat ");
                push_decimal(s, *seat as usize);
                s.append(" posts ");
                push_decimal(s, *amount as usize);
                s.append(" bring-in");
            },
            TableAction::DealingXCards(x) => {
                s.append("Dealing out ");
                push_decimal(s, *x as usize);
                s.append(" cards");
            },
            TableAction::Dealt(seat, cards) => {
                s.append("Seat ");
                push_decimal(s, *seat as usize);
                s.append(" is dealt ");
                cards.push_text(s);
            },
            TableAction::DealtFlop(cards) => {
                s.append("Flop is ");
                cards.push_text(s);
            },
            TableAction::DealtTurn(cards) => {
                s.append("Turn is ");
                cards.push_text(s);
            },
            TableAction::DealtRiver(cards) => {
                s.append("River is ");
                cards.push_text(s);
            },
            TableAction::DealtPlayers => {
                s.append("Dealt Players");
            },
            TableAction::ForceDealt(seat, cards) => {
                s.append("Seat ");
                push_decimal(s, *seat as usize);
                s.append(" is force-dealt ");
                cards.push_text(s);
            },
            TableAction::SealedDealt(seat, slot) => {
                s.append("Seat ");
                push_decimal(s, *seat as usize);
                s.append(" is dealt a sealed card (slot ");
                push_decimal(s, *slot as usize);
                s.append(")");
            },
            TableAction::Revealed(seat, slot, card) => {
                s.append("Seat ");
                push_decimal(s, *seat as usize);
                s.append(" reveals slot ");
                push_decimal(s, *slot as usize);
                s.append(": ");
                card.push_text(s);
            },
            TableAction::BringItIn(amount) => {
                s.append("Brings in ");
                push_decimal(s, *amount as usize);
            },
            _ => {},
        }
    }

    #[verifier::rlimit(100)]
    fn push_play_text(&self, s: &mut String)
        requires
            !self.spec_is_setup_entry(),
        ensures
            final(s)@ == old(s)@ + table_action_text(*self),
    {
        match self {
            TableAction::ActionTo(seat) => {
                s.append("Action to Seat ");
                push_decimal(s, *seat as usize);
            },
            TableAction::Check(seat) => {
                s.append("Seat ");
                push_decimal(s, *seat as usize);
                s.append(" checks");
            },
            TableAction::Bet(seat, amount) => {
                s.append("Seat ");
                push_decimal(s, *seat as usize);
                s.append(" bets ");
                push_decimal(s, *amount as usize);
            },
            TableAction::Call(seat, amount) => {
                s.append("Seat ");
                push_decimal(s, *seat as usize);
                s.append(" calls ");
                push_decimal(s, *amount as usize);
            },
            TableAction::Raise(seat, amount) => {
                s.append("Seat ");
                push_decimal(s, *seat as usize);
                s.append(" raises to ");
                push_decimal(s, *amount as usize);
            },
            TableAction::AllIn(seat, amount) => {
                s.append("Seat ");
                push_decimal(s, *seat as usize);
                s.append(" goes all in with ");
                push_decimal(s, *amount as usize);
            },
            TableAction::Fold(seat) => {
                s.append("Seat ");
                push_decimal(s, *seat as usize);
                s.append(" folds");
            },
            TableAction::PotSize(amount) => {
                s.append("Pot size is ");
                push_decimal(s, *amount as usize);
            },
            TableAction::SplitPots => {
                s.append("Split Pots");
            },
            TableAction::MainPot(amount) => {
                s.append("Main Pot is ");
                push_decimal(s, *amount as usize);
            },
            TableAction::SidePot(amount) => {
                s.append("Side Pot is ");
                push_decimal(s, *amount as usize);
            },
            TableAction::SplitPot(number, size) => {
                push_decimal(s, *size as usize);
                s.append(" split pot between ");
                push_decimal(s, *number as usize);
                s.append(" players");
            },
            _ => self.push_closing_text(s),
        }
    }

    #[verifier::rlimit(100)]
    fn push_closing_text(&self, s: &mut String)
        requires
            !self.spec_is_setup_entry(),
            !(self is ActionTo || self is Check || self is Bet || self is Call || self is Raise
                || self is AllIn || self is Fold || self is PotSize || self is SplitPots
                || self is MainPot || self is SidePot || self is SplitPot),
        ensures
            final(s)@ == old(s)@ + table_action_text(*self),
    {
        match self {
            TableAction::MuckCards(cards) => {
                s.append("Muck cards: ");
                cards.push_text(s);
            },
            TableAction::MuckPlayerCards(seat, cards) => {
                s.append("Muck player ");
                push_decimal(s, *seat as usize);
                s.append("'s cards: ");
                cards.push_text(s);
            },
            TableAction::TakePlayerCards(seat, cards) => {
                s.append("Take player ");
                push_decimal(s, *seat as usize);
                s.append("'s cards: ");
                cards.push_text(s);
            },
            TableAction::TakeBoardCards(cards) => {
                s.append("Take board cards: ");
                cards.push_text(s);
            },
            TableAction::ClosesTheAction(seat) => {
                s.append("Seat ");
                push_decimal(s, *seat as usize);
                s.append(" closes the action");
            },
            TableAction::CloseItOut(amount) => {
                s.append("Close out the hand with a ");
                push_decimal(s, *amount as usize);
                s.append(" pot");
            },
            TableAction::EndHand => {
                s.append("End Hand");
            },
            TableAction::HandAborted(amount) => {
                s.append("Hand aborted; ");
                push_decimal(s, *amount as usize);
                s.append(" returned to players");
            },
            TableAction::ResetTable => {
                s.append("Table reset for next hand");
            },
            TableAction::Showdown(seat) => {
                push_decimal(s, *seat as usize);
                s.append(" seats in showdown");
            },
            TableAction::PlayerMucksCards(seat) => {
                s.append("Seat ");
                push_decimal(s, *seat as usize);
                s.append(" mucks their cards");
            },
            TableAction::AllFoldedTo(seat) => {
                s.append("All folded to Seat ");
                push_decimal(s, *seat as usize);
            },
            _ => self.push_result_text(s),
        }
    }

    #[verifier::rlimit(100)]
    fn push_result_text(&self, s: &mut String)
        requires
            self is PlayerWinsSidePot || self is PlayerWinsMainPot || self is PlayerLosesSidePot
                || self is PlayerLosesMainPot || self is PlayerWins || self is PlayerLoses
                || self is InvalidAction || self is InvalidPlayerAction || self is NotEnoughCards
                || self is TooManyCards || self is InvalidSeatNumber || self is DeckPassesAudit
                || self is ChipAuditFailed,
        ensures
            final(s)@ == old(s)@ + table_action_text(*self),
    {
        match self {
            TableAction::PlayerWinsSidePot(seat, amount) => {
                s.append("Seat ");
                push_decimal(s, *seat as usize);
                s.append(" wins side pot of ");
                push_decimal(s, *amount as usize);
            },
            TableAction::PlayerWinsMainPot(seat, amount) => {
                s.append("Seat ");
                push_decimal(s, *seat as usize);
                s.append(" wins main pot of ");
                push_decimal(s, *amount as usize);
            },
            TableAction::PlayerLosesSidePot(seat, amount) => {
                s.append("Seat ");
                push_decimal(s, *seat as usize);
                s.append(" loses side pot of ");
                push_decimal(s, *amount as usize);
            },
            TableAction::PlayerLosesMainPot(seat, amount) => {
                s.append("Seat ");
                push_decimal(s, *seat as usize);
                s.append(" loses main pot of ");
                push_decimal(s, *amount as usize);
            },
            TableAction::PlayerWins(seat, pid, hand, won, pot) => {
                s.append("Seat ");
                push_decimal(s, *seat as usize);
                s.append(" (Player ");
                push_id(s, *pid);
                s.append(") wins ");
                push_decimal(s, *won as usize);
                s.append(" of a pot of ");
                push_decimal(s, *pot as usize);
                s.append(" with ");
                hand.push_text(s);
            },
            TableAction::PlayerLoses(seat, pid, hand, lost) => {
                s.append("Seat ");
                push_decimal(s, *seat as usize);
                s.append(" (Player ");
                push_id(s, *pid);
                s.append(") loses ");
                push_decimal(s, *lost as usize);
                s.append(" with ");
                hand.push_text(s);
            },
            TableAction::InvalidAction => {
                s.append("Invalid Action");
            },
            TableAction::InvalidPlayerAction(seat, action) => {
                s.append("Invalid action by Seat ");
                push_decimal(s, *seat as usize);
                s.append(": ");
                action.push_text(s);
            },
            TableAction::NotEnoughCards => {
                s.append("Not enough cards to deal");
            },
            TableAction::TooManyCards => {
                s.append("Too many cards to deal");
            },
            TableAction::InvalidSeatNumber => {
                s.append("Invalid Seat Number");
            },
            TableAction::DeckPassesAudit => {
                s.append("Deck passes audit");
            },
            TableAction::ChipAuditFailed(expected, actual) => {
                s.append("Chip audit failed: expected ");
                push_decimal(s, *expected as usize);
                s.append(" chips, found ");
                push_decimal(s, *actual as usize);
            },
            _ => {},
        }
    }

    /// The text of the entry.
    pub fn to_string(&self) -> (t: String)
        ensures
            t@ == table_action_text(*self),
    {
        let mut t = String::new();
        self.push_text(&mut t);
        proof {
            assert(t@ =~= table_action_text(*self));
        }
        t
    }

    /// The commentary on the entry, naming the player `name`.
    pub fn commentary(&self, name: &str) -> (t: String)
        ensures
            t@ == commentary_text(*self, name@),
    {
        let mut t = String::new();
        let s = &mut t;
        match self {
            TableAction::ForcedBetSmallBlind(_, amount) => {
                s.append(name);
                s.append(" posts ");
                push_decimal(s, *amount as usize);
                s.append(" small blind");
            },
            TableAction::ForcedBetBigBlind(_, amount) => {
                s.append(name);
                s.append(" posts ");
                push_decimal(s, *amount as usize);
                s.append(" big blind");
            },
            TableAction::BringItIn(amount) => {
                s.append("Brings in ");
                push_decimal(s, *amount as usize);
            },
            TableAction::Bet(_, amount) => {
                s.append(name);
                s.append(" bets ");
                push_decimal(s, *amount as usize);
            },
            TableAction::Call(_, amount) => {
                s.append(name);
                s.append(" calls ");
                push_decimal(s, *amount as usize);
            },
            TableAction::Raise(_, amount) => {
                s.append(name);
                s.append(" raises to ");
                push_decimal(s, *amount as usize);
            },
            TableAction::AllIn(_, _) => {
                s.append(name);
                s.append(" goes all in.");
            },
            TableAction::Fold(_) => {
                s.append(name);
                s.append(" folds");
            },
            TableAction::Check(_) => {
                s.append(name);
                s.append(" checks");
            },
            TableAction::PotSize(amount) => {
                push_decimal(s, *amount as usize);
                s.append(" pots size");
            },
            TableAction::MainPot(amount) => {
                s.append("Main pot ");
                push_decimal(s, *amount as usize);
            },
            TableAction::SidePot(amount) => {
                s.append("Side pot ");
                push_decimal(s, *amount as usize);
            },
            TableAction::SplitPot(number, size) => {
                push_decimal(s, *size as usize);
                s.append(" split pot between ");
                push_decimal(s, *number as usize);
                s.append(" players");
            },
            TableAction::Dealt(_, cards) => {
                s.append(name);
                s.append(" dealt ");
                cards.push_text(s);
            },
            TableAction::SealedDealt(_, slot) => {
                s.append(name);
                s.append(" dealt a sealed card (slot ");
                push_decimal(s, *slot as usize);
                s.append(")");
            },
            TableAction::Revealed(_, slot, card) => {
                s.append(name);
                s.append(" reveals slot ");
                push_decimal(s, *slot as usize);
                s.append(": ");
                card.push_text(s);
            },
            TableAction::DealtFlop(cards) => {
                s.append("Flop is ");
                cards.push_text(s);
            },
            TableAction::DealtTurn(cards) => {
                s.append("Turn is ");
                cards.push_text(s);
            },
            TableAction::DealtRiver(cards) => {
                s.append("River is ");
                cards.push_text(s);
            },
            TableAction::EndHand => {
                s.append("Hand over.");
            },
            TableAction::ResetTable => {
                s.append("Table reset for next hand.");
            },
            TableAction::PlayerMucksCards(_) => {
                s.append(name);
                s.append(" mucks their cards.");
            },
            TableAction::AllFoldedTo(_) => {
                s.append("Everyone folds to ");
                s.append(name);
                s.append(".");
            },
            TableAction::PlayerWinsSidePot(seat, amount) => {
                s.append(name);
                s.append(" (Seat ");
                push_decimal(s, *seat as usize);
                s.append(") wins side pot of ");
                push_decimal(s, *amount as usize);
            },
            TableAction::PlayerWinsMainPot(seat, amount) => {
                s.append(name);
                s.append(" (Seat ");
                push_decimal(s, *seat as usize);
                s.append(") wins main pot of ");
                push_decimal(s, *amount as usize);
            },
            TableAction::PlayerLosesSidePot(seat, amount) => {
                s.append(name);
                s.append(" (Seat ");
                push_decimal(s, *seat as usize);
                s.append(") loses side pot of ");
                push_decimal(s, *amount as usize);
            },
            TableAction::PlayerLosesMainPot(seat, amount) => {
                s.append(name);
                s.append(" (Seat ");
                push_decimal(s, *seat as usize);
                s.append(") loses main pot of ");
                push_decimal(s, *amount as usize);
            },
            TableAction::PlayerWins(seat, _, hand, won, pot) => {
                s.append(name);
                s.append(" (Seat ");
                push_decimal(s, *seat as usize);
                s.append(") wins ");
                push_decimal(s, *won as usize);
                s.append(" of a pot of ");
                push_decimal(s, *pot as usize);
                s.append(" with ");
                hand.push_text(s);
            },
            TableAction::PlayerLoses(seat, _, hand, lost) => {
                s.append(name);
                s.append(" (Seat ");
                push_decimal(s, *seat as usize);
                s.append(") loses ");
                push_decimal(s, *lost as usize);
                s.append(" with ");
                hand.push_text(s);
            },
            _ => {
                self.push_text(s);
            },
        }
        proof {
            assert(t@ =~= commentary_text(*self, name@));
        }
        t
    }
}

} // verus!
