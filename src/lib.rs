//! An in-memory key-value store with nested transactions.
//!
//! A [`scope::transaction`] holds the live state: keys mapped to integer
//! values, plus a reverse index counting how many keys hold each value.
//! A stack of snapshots of that state gives BEGIN / ROLLBACK / COMMIT, and
//! [`dispatch::dispatch_command`] applies one validated command to both.
pub mod command;
pub mod dispatch;
pub mod scope;
pub mod stack;
