//! Resource record data of the Domain Name System: the record types, domain
//! names with message compression, and the wire format of each kind of RDATA,
//! with verified readers and writers.
pub mod error;
pub mod wire;
pub mod name;
pub mod encoder;
pub mod record_type;
pub mod rdata;
pub mod record_data;
pub mod order;
pub mod roundtrip;
pub mod layout;


