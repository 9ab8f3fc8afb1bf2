//! iroh on ESP32 boards: what the devices measure, log and show, and what the
//! clients that dial them ask for and print.
//!
//! The library holds the rules and nothing of the hardware or the network. Where
//! work alternates with decisions, the decisions are a machine: it says what is to
//! be done next, and is told how that went. Each machine has a mathematical
//! counterpart, its view, over which its contract is stated.
//!
//! On the device: [`dht22`] and [`scd30`] read the sensors, [`sensors`] runs the
//! ventilation, [`buffer`] keeps the log and answers requests for it, [`led`] and
//! [`display`] show things, [`wifi`] joins a network and lists what is around,
//! [`echo`] sends bytes back, [`alloc_log`] and [`platform`] serve the firmware
//! itself.
//!
//! On the client: [`identity`] is who it is, [`ticket`] whom it dials, [`live`] and
//! [`feed`] follow the log of a device, [`follow`] is what holds of both, [`cli`] is the
//! command line.
//!
//! [`protocol`] is what both sides speak of. [`text`] and [`ieee`] are the parts of
//! text and of number formats that the rest is stated with.

pub mod alloc_log;
pub mod buffer;
pub mod cli;
pub mod dht22;
pub mod display;
pub mod echo;
pub mod feed;
pub mod follow;
pub mod identity;
pub mod ieee;
pub mod led;
pub mod live;
pub mod platform;
pub mod protocol;
pub mod scd30;
pub mod sensors;
pub mod text;
pub mod ticket;
pub mod wifi;
