//! Symbol recovery for stripped binaries: structural matching between a
//! snapshot that carries symbols and one that does not, and a ledger that
//! keeps the confidence state of every proposed binding.
pub mod analysis;
pub mod db;
pub mod generate;
pub mod keyed;
pub mod ledger;
