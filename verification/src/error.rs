use vstd::prelude::*;

use crate::casino::action::{table_action_text, TableAction};
use crate::text::{decimal, push_decimal};

verus! {

/// Every way a casino operation can be refused.
#[derive(Clone, Copy, Debug, PartialEq, Eq, Structural)]
pub enum PKError {
    ActionIsntFinished,
    AlreadyDealt,
    Busted,
    ChipAuditFailed,
    DeserializationError,
    ExceedsBettingCap,
    Fubar,
    InsufficientChips,
    InsufficientIncrement,
    InvalidAction,
    InvalidCardIndex,
    InvalidSeatNumber,
    InvalidTableAction,
    IoError,
    NoBlankSlots,
    NotDealt,
    NotEnoughCards,
    RaiseCapReached,
    SerializationError,
    SnapshotCorrupt,
    SnapshotVersion { found: u16, expected: u16 },
    TableActionOutOfOrder(TableAction),
    TableFull,
    TableNotFound,
}

/// The text of an error: the name of the refusal, with what it carries.
pub open spec fn pk_error_text(e: PKError) -> Seq<char> {
    match e {
        PKError::ActionIsntFinished => "ActionIsntFinished"@,
        PKError::AlreadyDealt => "AlreadyDealt"@,
        PKError::Busted => "Busted"@,
        PKError::ChipAuditFailed => "ChipAuditFailed"@,
        PKError::DeserializationError => "DeserializationError"@,
        PKError::ExceedsBettingCap => "ExceedsBettingCap"@,
        PKError::Fubar => "Fubar"@,
        PKError::InsufficientChips => "InsufficientChips"@,
        PKError::InsufficientIncrement => "InsufficientIncrement"@,
        PKError::InvalidAction => "InvalidAction"@,
        PKError::InvalidCardIndex => "InvalidCardIndex"@,
        PKError::InvalidSeatNumber => "InvalidSeatNumber"@,
        PKError::InvalidTableAction => "InvalidTableAction"@,
        PKError::IoError => "IoError"@,
        PKError::NoBlankSlots => "NoBlankSlots"@,
        PKError::NotDealt => "NotDealt"@,
        PKError::NotEnoughCards => "NotEnoughCards"@,
        PKError::RaiseCapReached => "RaiseCapReached"@,
        PKError::SerializationError => "SerializationError"@,
        PKError::SnapshotCorrupt => "SnapshotCorrupt"@,
        PKError::SnapshotVersion { found, expected } => "SnapshotVersion { found: "@ + decimal(found as nat)
            + ", expected: "@ + decimal(expected as nat) + " }"@,
        PKError::TableActionOutOfOrder(a) => "TableActionOutOfOrder("@ + table_action_text(a) + ")"@,
        PKError::TableFull => "TableFull"@,
        PKError::TableNotFound => "TableNotFound"@,
    }
}

impl PKError {
    /// The text of the error.
    #[verifier::rlimit(40)]
    pub fn to_string(&self) -> (s: String)
        ensures
            s@ == pk_error_text(*self),
    {
        let mut s = String::new();
        match self {
            PKError::ActionIsntFinished => s.append("ActionIsntFinished"),
            PKError::AlreadyDealt => s.append("AlreadyDealt"),
            PKError::Busted => s.append("Busted"),
            PKError::ChipAuditFailed => s.append("ChipAuditFailed"),
            PKError::DeserializationError => s.append("DeserializationError"),
            PKError::ExceedsBettingCap => s.append("ExceedsBettingCap"),
            PKError::Fubar => s.append("Fubar"),
            PKError::InsufficientChips => s.append("InsufficientChips"),
            PKError::InsufficientIncrement => s.append("InsufficientIncrement"),
            PKError::InvalidAction => s.append("InvalidAction"),
            PKError::InvalidCardIndex => s.append("InvalidCardIndex"),
            PKError::InvalidSeatNumber => s.append("InvalidSeatNumber"),
            PKError::InvalidTableAction => s.append("InvalidTableAction"),
            PKError::IoError => s.append("IoError"),
            PKError::NoBlankSlots => s.append("NoBlankSlots"),
            PKError::NotDealt => s.append("NotDealt"),
            PKError::NotEnoughCards => s.append("NotEnoughCards"),
            PKError::RaiseCapReached => s.append("RaiseCapReached"),
            PKError::SerializationError => s.append("SerializationError"),
            PKError::SnapshotCorrupt => s.append("SnapshotCorrupt"),
            PKError::SnapshotVersion { found, expected } => {
                s.append("SnapshotVersion { found: ");
                push_decimal(&mut s, *found as usize);
                s.append(", expected: ");
                push_decimal(&mut s, *expected as usize);
                s.append(" }");
            },
            PKError::TableActionOutOfOrder(a) => {
                s.append("TableActionOutOfOrder(");
                a.push_text(&mut s);
                s.append(")");
            },
            PKError::TableFull => s.append("TableFull"),
            PKError::TableNotFound => s.append("TableNotFound"),
        }
        proof {
            assert(s@ =~= pk_error_text(*self));
        }
        s
    }
}

} // verus!
