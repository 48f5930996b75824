//! Mail retrieval and header normalisation for a terminal mail client.
pub mod text;
pub mod decoder;
pub mod util;
pub mod account;
pub mod inbox;
pub mod mail;
pub mod receiving;
pub mod mode;
