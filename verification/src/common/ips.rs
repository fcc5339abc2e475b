//! Loopback addresses of the development topology.

use vstd::prelude::*;

verus! {

pub const CONTROLLER: &'static str = "127.0.0.210";

pub const GATEWAY_RELAY: &'static str = "127.0.0.211";

pub const MOCK_OIDC: &'static str = "127.0.0.212";

pub const TEST_APP: &'static str = "127.0.0.220";

/// Second test application, for runs with several gateways.
pub const TEST_APP2: &'static str = "127.0.0.221";

} // verus!
