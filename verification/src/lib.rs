//! Signal processing and display geometry for a two-microphone sound
//! locator: a moving-sum filter over a circular audio buffer, zero-crossing
//! search on sampled signals, and integer pixel geometry for drawing the
//! direction vector and boxes on a 480x272 display.

pub mod filter;
pub mod gui;
pub mod sonar_localization;
