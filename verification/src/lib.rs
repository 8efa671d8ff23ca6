//! Verified core of a Modbus TCP utility: register-range parsing, the register
//! simulator, the REST state, table rendering and CSV logging.

pub mod text;
pub mod client;
pub mod sim_config;
pub mod simulator;
pub mod api;
pub mod display;
pub mod logger;
pub mod clock;
