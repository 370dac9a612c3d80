//! Verified core of an IoT device that authenticates to its server with a
//! multi-key challenge, keeps its keys encrypted at rest and sends encrypted
//! telemetry over CoAP.
pub mod crypto;
pub mod secure_store;
pub mod auth_manager;
pub mod coap_utils;
pub mod config;
pub mod clock;
pub mod uart;
pub mod communication_manager;
pub mod mmu;
pub mod telemetry;
