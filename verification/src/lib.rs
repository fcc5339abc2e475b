//! The rules of a zero-trust access client: device identity and keys at rest,
//! posture, authorized zones and their DNS answers, per-destination tunnels,
//! UDP flows and fragments, split DNS, and the background service.
//!
//! Files, sockets and the operating system belong to the program around this
//! library; it hands plain values in and performs the actions it gets back.

pub mod addr;
pub mod atrest;
pub mod bench;
pub mod bytes;
pub mod calendar;
pub mod certs;
pub mod commands;
pub mod common;
pub mod crypto;
pub mod diag;
pub mod dns;
pub mod establish;
pub mod flows;
pub mod hex;
pub mod identity;
pub mod keys;
pub mod login;
pub mod peer;
pub mod posture;
pub mod posture_collector;
pub mod posture_probes;
pub mod relay;
pub mod serve;
pub mod splitdns;
pub mod state;
pub mod svc;
pub mod table;
pub mod telemetry;
pub mod text;
pub mod tokenstore;
pub mod tpm;
pub mod tpmtls;
pub mod tray;
pub mod udp_frag;
pub mod zones;
