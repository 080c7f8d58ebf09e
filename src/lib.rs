//! Resolution of IP addresses to the autonomous system that owns them, over a
//! table of address ranges that is parsed from a tab-separated dataset and
//! replaced wholesale on each refresh.
pub mod addr;
pub mod index;
pub mod dataset;
pub mod refresh;
