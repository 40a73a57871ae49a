use vstd::prelude::*;

pub mod addr;
pub mod dns;
pub mod enforcer;
pub mod firewall;
pub mod transport;

verus! {

} // verus!
