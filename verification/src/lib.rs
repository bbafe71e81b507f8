pub mod aggregate;
pub mod codec;
pub mod date;
pub mod digits;
pub mod duration;
pub mod ledger;
pub mod time;
