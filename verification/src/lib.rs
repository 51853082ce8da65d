//! A web interface to what an LTE modem can do beyond the interface of its router: locks to a
//! carrier or a cell, the signal with its history, the cells around, the bands, and a console for
//! AT commands.
//!
//! The library decides; it performs no I/O. What depends on replies of a modem is asked again
//! after each of them and says what comes next. Modules with names in `_laws` hold theorems only.

pub mod answer_laws;
pub mod api;
pub mod api_laws;
pub mod at;
pub mod at_laws;
pub mod bands;
pub mod base64;
pub mod cli;
pub mod demo;
pub mod demo_laws;
pub mod http;
pub mod http_laws;
pub mod intel;
pub mod intel_laws;
pub mod json;
pub mod json_reading;
pub mod modem;
pub mod modem_laws;
pub mod numbers;
pub mod signal;
pub mod signal_laws;
pub mod simcom;
pub mod store;
pub mod table;
pub mod text;
pub mod text_laws;
