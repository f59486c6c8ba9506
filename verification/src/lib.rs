//! Host-testable logic of the helicopter-collective firmware: mDNS name
//! encoding and query answering, the status JSON body, and the register-level
//! protocol of the TMAG5273 magnetometer driver.

pub mod mdns;
pub mod status;
pub mod tmag5273;
