//! A self-organising encrypted mesh router: identities that certify their own
//! addresses, pairwise authenticated sessions, source-routed forwarding and the
//! single-threaded dispatch step that ties them together.

pub mod bytes;
pub mod text;
pub mod label;
pub mod codec;
pub mod crypto;
pub mod identity;
pub mod replay;
pub mod packet;
pub mod session;
pub mod router;
pub mod message;
pub mod peer;
pub mod dispatcher;
pub mod schedule;
pub mod delivery;
pub mod config;
pub mod command;
