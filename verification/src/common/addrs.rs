//! Listener addresses of the development topology.

use vstd::prelude::*;

verus! {

pub const MGMT: &'static str = "127.0.0.210:29443";

pub const CLIENT: &'static str = "127.0.0.210:27443";

pub const GATEWAY: &'static str = "127.0.0.210:27444";

pub const ENROLL: &'static str = "127.0.0.210:27445";

pub const OP: &'static str = "127.0.0.210:27446";

} // verus!
