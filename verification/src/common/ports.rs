//! Default ports of the development topology.

use vstd::prelude::*;

verus! {

pub const CONTROLLER_MGMT: u16 = 29443;

pub const CONTROLLER_CLIENT: u16 = 27443;

pub const CONTROLLER_GATEWAY: u16 = 27444;

/// Bootstrap listener (enrolment, gateway registration, CA).
pub const CONTROLLER_ENROLL: u16 = 27445;

/// OpenID provider listener, bound only where the controller acts as one.
pub const CONTROLLER_OP: u16 = 27446;

pub const MOCK_OIDC: u16 = 25556;

} // verus!
