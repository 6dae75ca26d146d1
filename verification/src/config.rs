use vstd::prelude::*;

use crate::addr::Ipv4;

verus! {

/// The immutable server configuration, built once at startup and shared
/// read-only by every query handler.
#[derive(Clone)]
pub struct Config {
    pub glue_name: String,
    pub glue_ip: Ipv4,
    pub soa_name: String,
    pub hostmaster: String,
    pub serial: u32,
    pub refresh: u32,
    pub retry: u32,
    pub expire: u32,
    pub minimum: u32,
    pub version: String,
}

} // verus!
