//! Record keeping and control logic of a plant-watering dashboard.

pub mod clock;
pub mod compact;
pub mod compacted;
pub mod config;
pub mod csv;
pub mod dashboard;
pub mod growing;
pub mod hours;
pub mod laws;
pub mod order;
pub mod promises;
pub mod session;
pub mod settle;
pub mod text;
pub mod types;
pub mod watering;
pub mod written;
