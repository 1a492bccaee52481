//! `decfec`: continuity indicators (DEC/FEC, DIC/FIC/DMIC) of distribution
//! networks.
//!
//! The library holds the domain: the network topology (`topology`), its
//! connectivity analysis (`reach`), its structural validation (`validate`),
//! the discrete-event fault simulation (`fault`), the choice of the lines a
//! report covers (`target`), and the graph edits offered by the editor
//! (`edit`, `commands`). `text` builds the messages.

pub mod topology;
pub mod reach;
pub mod fault;
pub mod validate;
pub mod text;
pub mod edit;
pub mod commands;
pub mod target;
pub mod preview;
