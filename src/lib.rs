//! Account switching for a game client: the text formats it keeps its state in,
//! the choice of the current account, and the decisions around stopping and
//! relaunching the client.
use vstd::prelude::*;

pub mod text;
pub mod vdf;
pub mod edit;
pub mod order;
pub mod error;
pub mod accounts;
pub mod library;
pub mod process;
pub mod profile;
pub mod history;

verus! {

} // verus!
