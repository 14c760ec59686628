//! Durable persistence and crash recovery for long-running procedures:
//! the key codec, the checkpoint envelope, and the recovery scan.

pub mod json;
pub mod key;
pub mod message;
pub mod metasrv;
pub mod procedure_id;
pub mod radix;
pub mod store;
