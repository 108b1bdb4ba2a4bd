//! Verified core of an SNMP/YANG network-management client: MIB and YANG
//! schema handling, SNMP value formatting and walk decisions, NETCONF framing,
//! gNMI path handling, trap decoding rules and persisted profile settings.
#![allow(unused_imports)]

pub mod assoc;
pub mod gnmi;
pub mod mib;
pub mod netconf;
pub mod netconf_xml;
pub mod settings;
pub mod smi;
pub mod ssh;
pub mod snmp;
pub mod text;
pub mod trap;
pub mod yang;

use vstd::prelude::*;

verus! {
} // verus!
