//! URL forms of the development topology.

use vstd::prelude::*;

verus! {

pub const CONTROLLER_MGMT: &'static str = "http://127.0.0.210:29443";

pub const CONTROLLER_CLIENT: &'static str = "https://127.0.0.210:27443";

pub const CONTROLLER_GATEWAY: &'static str = "https://127.0.0.210:27444";

pub const CONTROLLER_ENROLL: &'static str = "https://127.0.0.210:27445";

pub const IDP_BASE: &'static str = "http://127.0.0.212:25556";

} // verus!
