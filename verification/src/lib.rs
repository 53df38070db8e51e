//! A fan controller's decisions, verified: reading the temperature profile and
//! the command line, picking and easing the fan speed, keeping the rolling
//! history, reading the kernel's counters, and answering web requests.

pub mod args;
pub mod args_laws;
pub mod controller;
pub mod decimal;
pub mod double;
pub mod history;
pub mod http;
pub mod http_laws;
pub mod layout_laws;
pub mod page;
pub mod profile;
pub mod profile_laws;
pub mod ramp;
pub mod steps;
pub mod system;
pub mod system_laws;
pub mod text;
pub mod text_laws;
pub mod utf8;
