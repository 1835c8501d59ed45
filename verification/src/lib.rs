//! A multi-target ping library: the bookkeeping of ping results per second,
//! the ICMP echo wire format, and the decisions of the send, receive and
//! report loops.

pub mod stat;
pub mod summary;
pub mod packet;
pub mod ping;
pub mod targets;
