//! The operations that end in a movement of tokens.

pub mod transfer_tokens;
