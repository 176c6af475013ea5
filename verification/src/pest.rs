//! Pest-control authority protocol: checksummed binary messages and the
//! policy bookkeeping of a site.

pub mod checksum;
pub mod helpers;
pub mod models;
pub mod read;
pub mod site;
pub mod write;
