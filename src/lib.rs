//! A forwarder for a Named-Data Networking style network: the TLV codec,
//! names, packets, the merged FIB/PIT/CS tables and the forwarding engine.

pub mod io;
pub mod tlv;
pub mod name;
pub mod timestamp;
pub mod face;
pub mod tables;
pub mod fields;
pub mod packet;
pub mod digest;
pub mod forwarder;
pub mod buffered;
pub mod typed;
