//! Analysis of BGP routing data taken from MRT archives: MRT record framing,
//! BGP UPDATE / RIB entry decoding, AS-level topology, valley-free route leak
//! checks and prefix hijack detection.

pub mod error;
pub mod wire;
pub mod text;
pub mod ranking;
pub mod mrt_parser;
pub mod bgp_extract;
pub mod valley_free;
pub mod parallel_processor;
pub mod topology;
pub mod anomaly;
pub mod file_names;
