pub mod auction;
pub mod books;
pub mod calls;
pub mod certify;
pub mod codec;
pub mod directory;
pub mod forms;
pub mod gateway;
pub mod handover;
pub mod harberger;
pub mod hashtree;
pub mod holdings;
pub mod idl;
pub mod json;
pub mod leaf;
pub mod ledger;
pub mod lifecycle;
pub mod maps;
pub mod market;
pub mod names;
pub mod order;
pub mod principal;
pub mod record;
pub mod registry;
pub mod resolve;
pub mod running;
pub mod settings;
pub mod stable;
pub mod store;
pub mod sums;
pub mod tax;
pub mod text;
pub mod treasury;
pub mod verify;
pub mod vickrey;
