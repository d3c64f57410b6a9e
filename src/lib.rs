//! Animation and power-guard logic for an addressable LED strip on a trailer.
//!
//! All brightness arithmetic is done in fixed point: positions along the strip
//! are measured in hundredths of a pixel, brightness values are integers.
//! The library never talks to hardware itself: every frame it wants shown and
//! every pause it wants taken is queued as a [`Command`] that the firmware
//! around it performs in order.

mod animation;
mod color;
mod power;
mod trailer;

pub use animation::{AnimationContext, SCALE};
pub use color::Color;
pub use power::{
    channel_sum, estimated_milliwatts, within_budget, AVAILABLE_MILLIWATTS, NUM_LEDS,
};
pub use trailer::{
    Command, PowerExceeded, TrailerLight, BLINK_DELAY_MS, BRAKE_DELAY_MS, FRAME_PAUSE_US,
    HALF, HIGHLIGHT_WIDTH, STEP_WIDTH, X_END, X_START,
};
