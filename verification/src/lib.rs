//! An expense-splitting ledger.
//!
//! The ledger tracks a group of participants, a set of receipts and which
//! participant shares which receipt. From these it computes what every
//! participant owes, receipt by receipt, and renders the result as CSV and
//! as fixed-width text. It is a single in-memory value: every command runs
//! to completion, and every query computes its answer anew from the
//! current state.
//!
//! # Parts
//!
//! - [`store`] owns the participant and receipt records ([`entity`]).
//! - [`assignment`] holds, for each participant, the receipts they share in.
//! - [`exclusion`] holds, for a receipt, the amount carved out of it before
//!   it is shared.
//! - [`shares`] defines what is owed; [`calculator`] computes it.
//! - [`export`] renders a share report.
//! - [`state`] ties the parts together behind commands and queries, and
//!   [`transitions`] says what each command does to the state.
//! - [`laws`] proves what holds of the whole.
//!
//! # Rules
//!
//! - Amounts are whole numbers of cents ([`money`]).
//! - An ordinary receipt is split evenly among the participants assigned to
//!   it. Each owes the total divided by their number, in whole cents; the
//!   cents that do not divide are owed by nobody.
//! - A receipt that nobody is assigned to is owed by nobody. It is not part
//!   of the grand total; [`State::unattributed`] brings it to light.
//! - An exclusion reduces what of its parent is shared, to nothing at the
//!   least. A parent has one exclusion at a time: a second one replaces the
//!   first, whose record stays among the receipts without effect.
//! - Exclusion records are listed among the receipts and never shared.
//! - Nothing dangles: removing a participant removes their assignments, and
//!   removing a receipt takes it out of every assignment and drops the
//!   exclusion entries that refer to it.
//! - A command that names something that does not exist changes nothing
//!   and says so in its result.
//! - Identifiers are the 128-bit values of UUIDs ([`ident`]). The commands
//!   that draw one at random have a twin that takes the identifier as an
//!   argument.

pub mod assignment;
pub mod calculator;
pub mod entity;
pub mod error;
pub mod exclusion;
pub mod export;
pub mod ident;
pub mod laws;
pub mod money;
pub mod shares;
pub mod state;
pub mod store;
pub mod transitions;

pub use calculator::{Bucket, ParticipantShares};
pub use entity::{Participant, Receipt};
pub use error::LedgerError;
pub use state::State;
