//! A small library that takes individual links and shortens them: it stores
//! link records in a durable key-value store under a compact short code and
//! resolves a short code back to the record it was stored under.

pub mod codec;
pub mod link;
pub mod manager;
pub mod shortcode;
pub mod store;
pub mod urltext;

pub use crate::link::Link;
pub use crate::manager::{LinkError, LinkManager};

use vstd::prelude::*;

verus! {

/// The number of characters in a generated short code.
pub const CODE_LEN: usize = 8;

} // verus!
