//! Reassembly engine for files that arrive as fragments hidden in the labels
//! of name-resolution queries.
//!
//! The engine decodes inbound names into fragments ([`labels`]), buffers them
//! per transfer ([`store`]), evicts transfers that went idle ([`sweeper`]),
//! rebuilds and checks the transmitted file ([`assembler`]) and decides what to
//! answer to each request ([`responder`]). Calls into other crates are kept in
//! [`codec`].
//!
//! Two modules hold no code to run, only what is proved of the engine:
//! [`delivery`] shows that the order in which fragments arrive does not
//! matter, and [`transmission`] that a file sent as the scheme prescribes
//! comes out as it went in.

pub mod assembler;
pub mod codec;
pub mod delivery;
pub mod labels;
pub mod responder;
pub mod store;
pub mod sweeper;
pub mod transmission;
