pub mod bars;
pub mod calendar;
pub mod collections;
pub mod database;
pub mod events;
pub mod fetching;
pub mod grid;
pub mod model;
pub mod months;
pub mod rolling;
pub mod statistics;
pub mod times;
