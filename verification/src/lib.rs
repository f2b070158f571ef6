//! Core building blocks of a hybrid cache: a checksummed page that packs
//! many small entries behind a bloom filter, and the state machine of a
//! wait group that gates a page flush on its in-flight writes.

pub mod bloom_filter;
pub mod buffer;
pub mod checksum;
pub mod clock;
pub mod code;
pub mod consistency;
pub mod contents;
pub mod endian;
pub mod entry;
pub mod recovery;
pub mod set;
pub mod test_utils;
pub mod wait_group;
