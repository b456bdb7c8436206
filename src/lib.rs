pub mod adr;
pub mod markdown;
pub mod state;
