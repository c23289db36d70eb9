//! Watches a game of Chinese chess on the screen, and plays it.
pub mod analysis;
pub mod answer_laws;
pub mod board;
pub mod bound_laws;
pub mod button_laws;
pub mod buttons;
pub mod calibration;
pub mod click_laws;
pub mod clicks;
pub mod common;
pub mod context;
pub mod frame;
pub mod geometry;
pub mod gestures;
pub mod laws;
pub mod protocol;
pub mod readings;
pub mod rounding;
pub mod rules;
pub mod single;
pub mod startup;
pub mod worker;
