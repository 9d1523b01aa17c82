//! Accounting and election core of a delegated-proof-of-stake consensus
//! mechanism.
//!
//! Validators register self-stake, other accounts delegate stake to
//! validators, the system elects the top-staked validators once per
//! fixed-length epoch, tallies block authorship, and distributes minted
//! rewards proportionally to elected validators and their eligible
//! delegators.
//!
//! All state lives in an explicit [`Pallet`] value: typed key-value tables
//! for validator records, delegation records, aggregate stakes, the epoch
//! snapshot and the authorship tally, plus an escrow ledger that tracks
//! free and held balances per account and hold reason.

pub mod epoch;
pub mod kv;
pub mod laws;
pub mod ledger;
pub mod pallet;

pub use ledger::BalanceLedger;
pub use ledger::HoldReason;
pub use pallet::Config;
pub use pallet::Delegation;
pub use pallet::Error;
pub use pallet::Event;
pub use pallet::GenesisConfig;
pub use pallet::Pallet;
pub use pallet::ReportNewValidatorSet;
